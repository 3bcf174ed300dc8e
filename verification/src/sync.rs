//! The document-sync protocol: encoding a replica's state as a sync
//! message, the length-prefixed wire framing, and the per-connection
//! engine that exchanges messages until convergence.
//!
//! A sync message carries the sender's whole replicated state; receiving
//! one merges it (see `crdt`), so applying a message twice changes
//! nothing and messages may arrive in any order.  The engine is
//! resumable: a fresh connection starts a fresh `SyncState` and simply
//! sends everything again.

use vstd::prelude::*;

use crate::codec::{
    enc_bool, enc_kind, enc_opt_u128, enc_text, enc_u128, enc_u64, kind_enc_ok, le_bytes,
    lemma_enc_opt_u128_len, lemma_enc_text_len, lemma_le_bytes_len, lemma_sd_bool, lemma_sd_kind,
    lemma_sd_opt_u128, lemma_sd_text, lemma_sd_u128, lemma_sd_u64, lemma_subrange_split, push_bool,
    push_u128, push_u64, read_bool, read_kind, read_opt_u128, read_text, read_u128, read_u64,
    sd_bool, sd_kind, sd_opt_u128, sd_text, sd_u128, sd_u64, write_kind, write_opt_u128,
    write_text,
};
use crate::crdt::{map_of, Reg, RegV, Stamp};
use crate::document::{
    merge_state, shapes_bounded, DocState, DocStateV, Document, GroupRec, GroupRecV, LayerRec,
    LayerRecV, StoredShape, StoredShapeV,
};
use crate::shapes::{kind_bounded, ShapeKind};
use vstd::string::StrSliceExecFns;

verus! {

// --- stamps ---

pub open spec fn enc_stamp(t: Stamp) -> Seq<u8> {
    enc_u64(t.time) + enc_u64(t.actor)
}

pub open spec fn sd_stamp(b: Seq<u8>, p: int) -> Option<(Stamp, int)> {
    match sd_u64(b, p) {
        Some((time, p1)) => match sd_u64(b, p1) {
            Some((actor, p2)) => Some((Stamp { time, actor }, p2)),
            None => None,
        },
        None => None,
    }
}

pub fn write_stamp(out: &mut Vec<u8>, t: Stamp)
    ensures
        final(out)@ == old(out)@ + enc_stamp(t),
{
    let ghost base = out@;
    push_u64(out, t.time);
    push_u64(out, t.actor);
    proof {
        assert(out@ =~= base + enc_stamp(t));
    }
}

pub fn read_stamp(buf: &Vec<u8>, pos: usize) -> (r: Option<(Stamp, usize)>)
    ensures
        match r {
            Some((t, np)) => sd_stamp(buf@, pos as int) == Some((t, np as int)),
            None => sd_stamp(buf@, pos as int) is None,
        },
{
    match read_u64(buf, pos) {
        Some((time, p1)) => match read_u64(buf, p1) {
            Some((actor, p2)) => Some((Stamp { time, actor }, p2)),
            None => None,
        },
        None => None,
    }
}

pub proof fn lemma_sd_stamp(b: Seq<u8>, p: int, t: Stamp)
    requires
        0 <= p,
        p + 16 <= b.len(),
        b.subrange(p, p + 16) == enc_stamp(t),
    ensures
        sd_stamp(b, p) == Some((t, p + 16)),
{
    lemma_le_bytes_len(t.time as int, 8);
    lemma_le_bytes_len(t.actor as int, 8);
    lemma_subrange_split(b, p, enc_u64(t.time), enc_u64(t.actor));
    lemma_sd_u64(b, p, t.time);
    lemma_sd_u64(b, p + 8, t.actor);
}

// --- signed 128-bit ranks ---

pub open spec fn enc_i128(v: i128) -> Seq<u8> {
    enc_u128(v as u128)
}

pub open spec fn sd_i128(b: Seq<u8>, p: int) -> Option<(i128, int)> {
    match sd_u128(b, p) {
        Some((v, np)) => Some((v as i128, np)),
        None => None,
    }
}

pub fn push_i128(out: &mut Vec<u8>, v: i128)
    ensures
        final(out)@ == old(out)@ + enc_i128(v),
{
    push_u128(out, v as u128);
}

pub fn read_i128(buf: &Vec<u8>, pos: usize) -> (r: Option<(i128, usize)>)
    ensures
        match r {
            Some((v, np)) => sd_i128(buf@, pos as int) == Some((v, np as int)),
            None => sd_i128(buf@, pos as int) is None,
        },
{
    match read_u128(buf, pos) {
        Some((v, np)) => Some((v as i128, np)),
        None => None,
    }
}

pub proof fn lemma_i128_roundtrip(v: i128)
    ensures
        ((v as u128) as i128) == v,
{
    assert(((v as u128) as i128) == v) by (bit_vector);
}

pub proof fn lemma_sd_i128(b: Seq<u8>, p: int, v: i128)
    requires
        0 <= p,
        p + 16 <= b.len(),
        b.subrange(p, p + 16) == enc_i128(v),
    ensures
        sd_i128(b, p) == Some((v, p + 16)),
{
    lemma_sd_u128(b, p, v as u128);
    lemma_i128_roundtrip(v);
}

// --- key lists (group members) ---

pub open spec fn enc_keys(s: Seq<u128>) -> Seq<u8>
    decreases s.len(),
{
    if s.len() == 0 {
        Seq::empty()
    } else {
        enc_keys(s.drop_last()) + enc_u128(s.last())
    }
}

pub open spec fn enc_key_list(s: Seq<u128>) -> Seq<u8> {
    le_bytes(s.len() as int, 8) + enc_keys(s)
}

pub open spec fn sd_keys(b: Seq<u8>, p: int, n: nat) -> Option<(Seq<u128>, int)>
    decreases n,
{
    if n == 0 {
        if 0 <= p <= b.len() {
            Some((Seq::empty(), p))
        } else {
            None
        }
    } else {
        match sd_u128(b, p) {
            Some((v, p1)) => match sd_keys(b, p1, (n - 1) as nat) {
                Some((s, p2)) => Some((seq![v] + s, p2)),
                None => None,
            },
            None => None,
        }
    }
}

pub open spec fn sd_key_list(b: Seq<u8>, p: int) -> Option<(Seq<u128>, int)> {
    match sd_u64(b, p) {
        Some((n, p1)) => sd_keys(b, p1, n as nat),
        None => None,
    }
}

pub proof fn lemma_enc_keys_len(s: Seq<u128>)
    ensures
        enc_keys(s).len() == 16 * s.len(),
    decreases s.len(),
{
    if s.len() > 0 {
        lemma_enc_keys_len(s.drop_last());
        lemma_le_bytes_len(s.last() as int, 16);
    }
}

pub proof fn lemma_enc_keys_first(s: Seq<u128>)
    requires
        s.len() > 0,
    ensures
        enc_keys(s) == enc_u128(s[0]) + enc_keys(s.drop_first()),
    decreases s.len(),
{
    if s.len() == 1 {
        assert(s.drop_last() =~= Seq::<u128>::empty());
        assert(s.drop_first() =~= Seq::<u128>::empty());
        assert(enc_keys(s) =~= enc_u128(s[0]) + enc_keys(s.drop_first()));
    } else {
        lemma_enc_keys_first(s.drop_last());
        assert(s.drop_last()[0] == s[0]);
        assert(s.drop_last().drop_first() =~= s.drop_first().drop_last());
        assert(s.drop_first().last() == s.last());
        assert(enc_keys(s) =~= enc_u128(s[0]) + enc_keys(s.drop_first()));
    }
}

pub proof fn lemma_sd_keys(b: Seq<u8>, p: int, s: Seq<u128>)
    requires
        0 <= p,
        p + 16 * s.len() <= b.len(),
        b.subrange(p, p + 16 * s.len()) == enc_keys(s),
    ensures
        sd_keys(b, p, s.len()) == Some((s, p + 16 * s.len())),
    decreases s.len(),
{
    if s.len() == 0 {
    } else {
        lemma_enc_keys_first(s);
        lemma_enc_keys_len(s);
        lemma_enc_keys_len(s.drop_first());
        lemma_le_bytes_len(s[0] as int, 16);
        lemma_subrange_split(b, p, enc_u128(s[0]), enc_keys(s.drop_first()));
        lemma_sd_u128(b, p, s[0]);
        lemma_sd_keys(b, p + 16, s.drop_first());
        assert(seq![s[0]] + s.drop_first() =~= s);
    }
}

pub proof fn lemma_sd_key_list(b: Seq<u8>, p: int, s: Seq<u128>)
    requires
        0 <= p,
        s.len() < 0x1_0000_0000_0000_0000,
        p + enc_key_list(s).len() <= b.len(),
        b.subrange(p, p + enc_key_list(s).len()) == enc_key_list(s),
    ensures
        sd_key_list(b, p) == Some((s, p + enc_key_list(s).len())),
{
    lemma_le_bytes_len(s.len() as int, 8);
    lemma_enc_keys_len(s);
    lemma_subrange_split(b, p, le_bytes(s.len() as int, 8), enc_keys(s));
    assert(b.subrange(p, p + 8) =~= enc_u64(s.len() as u64));
    lemma_sd_u64(b, p, s.len() as u64);
    lemma_sd_keys(b, p + 8, s);
}

pub fn write_key_list(out: &mut Vec<u8>, v: &Vec<u128>)
    ensures
        final(out)@ == old(out)@ + enc_key_list(v@),
{
    let ghost base = out@;
    let n = v.len();
    push_u64(out, n as u64);
    let mut i: usize = 0;
    proof {
        assert(v@.subrange(0, 0) =~= Seq::<u128>::empty());
        assert(out@ =~= base + le_bytes(v@.len() as int, 8) + enc_keys(v@.subrange(0, 0)));
    }
    while i < n
        invariant
            i <= n,
            n == v@.len(),
            out@ == base + le_bytes(v@.len() as int, 8) + enc_keys(v@.subrange(0, i as int)),
        decreases n - i,
    {
        push_u128(out, v[i]);
        proof {
            let pre = v@.subrange(0, i as int);
            let ext = v@.subrange(0, i + 1);
            assert(ext.drop_last() =~= pre);
            assert(ext.last() == v@[i as int]);
            assert(out@ =~= base + le_bytes(v@.len() as int, 8) + enc_keys(ext));
        }
        i = i + 1;
    }
    proof {
        assert(v@.subrange(0, v@.len() as int) =~= v@);
    }
}

pub fn read_key_list(buf: &Vec<u8>, pos: usize) -> (r: Option<(Vec<u128>, usize)>)
    ensures
        match r {
            Some((v, np)) => sd_key_list(buf@, pos as int) == Some((v@, np as int)),
            None => sd_key_list(buf@, pos as int) is None,
        },
{
    let (n, start) = match read_u64(buf, pos) {
        Some(x) => x,
        None => {
            return None;
        },
    };
    let mut v: Vec<u128> = Vec::new();
    let mut p: usize = start;
    let mut i: u64 = 0;
    proof {
        assert(seq![] + Seq::<u128>::empty() =~= Seq::<u128>::empty());
    }
    while i < n
        invariant
            i <= n,
            p <= buf@.len(),
            sd_u64(buf@, pos as int) == Some((n, start as int)),
            sd_keys(buf@, start as int, n as nat) == (match sd_keys(buf@, p as int, (n - i) as nat) {
                Some((t, q)) => Some((v@ + t, q)),
                None => None::<(Seq<u128>, int)>,
            }),
        decreases n - i,
    {
        let ghost pre = v@;
        match read_u128(buf, p) {
            Some((k, np)) => {
                v.push(k);
                proof {
                    assert forall|t: Seq<u128>| pre + (seq![k] + t) =~= v@ + t by {}
                }
                p = np;
            },
            None => {
                proof {
                    assert((n - i) as nat != 0);
                    assert(sd_keys(buf@, p as int, (n - i) as nat) is None);
                }
                return None;
            },
        }
        i = i + 1;
    }
    proof {
        assert(v@ + Seq::<u128>::empty() =~= v@);
    }
    Some((v, p))
}

// --- register payloads ---

pub open spec fn enc_stored(v: StoredShapeV) -> Seq<u8> {
    enc_kind(v.kind) + (enc_opt_u128(v.layer) + enc_opt_u128(v.group))
}

/// Parse a stored shape; a record out of the representable bounds is
/// rejected so that everything in the store stays well-formed.
pub open spec fn sd_stored(b: Seq<u8>, p: int) -> Option<(StoredShapeV, int)> {
    match sd_kind(b, p) {
        Some((kind, p1)) => if kind_bounded(kind) {
            match sd_opt_u128(b, p1) {
                Some((layer, p2)) => match sd_opt_u128(b, p2) {
                    Some((group, p3)) => Some((StoredShapeV { kind, layer, group }, p3)),
                    None => None,
                },
                None => None,
            }
        } else {
            None
        },
        None => None,
    }
}

pub open spec fn enc_grec(v: GroupRecV) -> Seq<u8> {
    enc_key_list(v.members) + enc_opt_u128(v.parent)
}

pub open spec fn sd_grec(b: Seq<u8>, p: int) -> Option<(GroupRecV, int)> {
    match sd_key_list(b, p) {
        Some((members, p1)) => match sd_opt_u128(b, p1) {
            Some((parent, p2)) => Some((GroupRecV { members, parent }, p2)),
            None => None,
        },
        None => None,
    }
}

pub open spec fn enc_lrec(v: LayerRecV) -> Seq<u8> {
    enc_text(v.name) + (enc_bool(v.visible) + enc_bool(v.locked))
}

pub open spec fn sd_lrec(b: Seq<u8>, p: int) -> Option<(LayerRecV, int)> {
    match sd_text(b, p) {
        Some((name, p1)) => match sd_bool(b, p1) {
            Some((visible, p2)) => match sd_bool(b, p2) {
                Some((locked, p3)) => Some((LayerRecV { name, visible, locked }, p3)),
                None => None,
            },
            None => None,
        },
        None => None,
    }
}

pub proof fn lemma_sd_stored(b: Seq<u8>, p: int, v: StoredShapeV)
    requires
        0 <= p,
        kind_bounded(v.kind),
        kind_enc_ok(v.kind),
        p + enc_stored(v).len() <= b.len(),
        b.subrange(p, p + enc_stored(v).len()) == enc_stored(v),
    ensures
        sd_stored(b, p) == Some((v, p + enc_stored(v).len())),
{
    lemma_enc_opt_u128_len(v.layer);
    lemma_enc_opt_u128_len(v.group);
    lemma_subrange_split(b, p, enc_kind(v.kind), enc_opt_u128(v.layer) + enc_opt_u128(v.group));
    lemma_sd_kind(b, p, v.kind);
    let p1 = p + enc_kind(v.kind).len();
    lemma_subrange_split(b, p1, enc_opt_u128(v.layer), enc_opt_u128(v.group));
    lemma_sd_opt_u128(b, p1, v.layer);
    lemma_sd_opt_u128(b, p1 + enc_opt_u128(v.layer).len(), v.group);
}

pub proof fn lemma_sd_grec(b: Seq<u8>, p: int, v: GroupRecV)
    requires
        0 <= p,
        v.members.len() < 0x1_0000_0000_0000_0000,
        p + enc_grec(v).len() <= b.len(),
        b.subrange(p, p + enc_grec(v).len()) == enc_grec(v),
    ensures
        sd_grec(b, p) == Some((v, p + enc_grec(v).len())),
{
    lemma_le_bytes_len(v.members.len() as int, 8);
    lemma_enc_keys_len(v.members);
    lemma_enc_opt_u128_len(v.parent);
    lemma_subrange_split(b, p, enc_key_list(v.members), enc_opt_u128(v.parent));
    lemma_sd_key_list(b, p, v.members);
    lemma_sd_opt_u128(b, p + enc_key_list(v.members).len(), v.parent);
}

pub proof fn lemma_sd_lrec(b: Seq<u8>, p: int, v: LayerRecV)
    requires
        0 <= p,
        v.name.len() < 0x1_0000_0000_0000_0000,
        p + enc_lrec(v).len() <= b.len(),
        b.subrange(p, p + enc_lrec(v).len()) == enc_lrec(v),
    ensures
        sd_lrec(b, p) == Some((v, p + enc_lrec(v).len())),
{
    lemma_enc_text_len(v.name);
    lemma_subrange_split(b, p, enc_text(v.name), enc_bool(v.visible) + enc_bool(v.locked));
    lemma_sd_text(b, p, v.name);
    let p1 = p + enc_text(v.name).len();
    lemma_subrange_split(b, p1, enc_bool(v.visible), enc_bool(v.locked));
    lemma_sd_bool(b, p1, v.visible);
    lemma_sd_bool(b, p1 + 1, v.locked);
}

pub fn write_stored(out: &mut Vec<u8>, v: &StoredShape)
    ensures
        final(out)@ == old(out)@ + enc_stored(v@),
{
    let ghost base = out@;
    write_kind(out, &v.kind);
    write_opt_u128(out, &v.layer);
    write_opt_u128(out, &v.group);
    proof {
        assert(out@ =~= base + enc_stored(v@));
    }
}

pub fn read_stored(buf: &Vec<u8>, pos: usize) -> (r: Option<(StoredShape, usize)>)
    ensures
        match r {
            Some((v, np)) => sd_stored(buf@, pos as int) == Some((v@, np as int)),
            None => sd_stored(buf@, pos as int) is None,
        },
{
    let (kind, p1) = match read_kind(buf, pos) {
        Some(x) => x,
        None => {
            return None;
        },
    };
    if !kind.is_bounded() {
        return None;
    }
    let (layer, p2) = match read_opt_u128(buf, p1) {
        Some(x) => x,
        None => {
            return None;
        },
    };
    let (group, p3) = match read_opt_u128(buf, p2) {
        Some(x) => x,
        None => {
            return None;
        },
    };
    Some((StoredShape { kind, layer, group }, p3))
}

pub fn write_grec(out: &mut Vec<u8>, v: &GroupRec)
    ensures
        final(out)@ == old(out)@ + enc_grec(v@),
{
    let ghost base = out@;
    write_key_list(out, &v.members);
    write_opt_u128(out, &v.parent);
    proof {
        assert(out@ =~= base + enc_grec(v@));
    }
}

pub fn read_grec(buf: &Vec<u8>, pos: usize) -> (r: Option<(GroupRec, usize)>)
    ensures
        match r {
            Some((v, np)) => sd_grec(buf@, pos as int) == Some((v@, np as int)),
            None => sd_grec(buf@, pos as int) is None,
        },
{
    let (members, p1) = match read_key_list(buf, pos) {
        Some(x) => x,
        None => {
            return None;
        },
    };
    let (parent, p2) = match read_opt_u128(buf, p1) {
        Some(x) => x,
        None => {
            return None;
        },
    };
    Some((GroupRec { members, parent }, p2))
}

pub fn write_lrec(out: &mut Vec<u8>, v: &LayerRec)
    ensures
        final(out)@ == old(out)@ + enc_lrec(v@),
{
    let ghost base = out@;
    write_text(out, v.name.as_str());
    push_bool(out, v.visible);
    push_bool(out, v.locked);
    proof {
        assert(out@ =~= base + enc_lrec(v@));
    }
}

pub fn read_lrec(buf: &Vec<u8>, pos: usize) -> (r: Option<(LayerRec, usize)>)
    ensures
        match r {
            Some((v, np)) => sd_lrec(buf@, pos as int) == Some((v@, np as int)),
            None => sd_lrec(buf@, pos as int) is None,
        },
{
    let (name, p1) = match read_text(buf, pos) {
        Some(x) => x,
        None => {
            return None;
        },
    };
    let (visible, p2) = match read_bool(buf, p1) {
        Some(x) => x,
        None => {
            return None;
        },
    };
    let (locked, p3) = match read_bool(buf, p2) {
        Some(x) => x,
        None => {
            return None;
        },
    };
    Some((LayerRec { name, visible, locked }, p3))
}


// --- stored entries ---

pub open spec fn enc_entry_stored(e: (u128, RegV<StoredShapeV>)) -> Seq<u8> {
    enc_u128(e.0) + (enc_stamp(e.1.stamp) + (match e.1.val {
        None => seq![0u8],
        Some(v) => seq![1u8] + enc_stored(v),
    }))
}

pub open spec fn sd_entry_stored(b: Seq<u8>, p: int) -> Option<((u128, RegV<StoredShapeV>), int)> {
    match sd_u128(b, p) {
        Some((k, p1)) => match sd_stamp(b, p1) {
            Some((stamp, p2)) => match sd_bool(b, p2) {
                Some((false, p3)) => Some(((k, RegV { stamp, val: None }), p3)),
                Some((true, p3)) => match sd_stored(b, p3) {
                    Some((v, p4)) => Some(((k, RegV { stamp, val: Some(v) }), p4)),
                    None => None,
                },
                None => None,
            },
            None => None,
        },
        None => None,
    }
}

/// Per-entry conditions under which the stored entry round trip holds.
pub open spec fn entry_ok_stored(e: (u128, RegV<StoredShapeV>)) -> bool {
    match e.1.val {
        Some(v) => kind_bounded(v.kind) && kind_enc_ok(v.kind),
        None => true,
    }
}

#[verifier::rlimit(100)]
#[verifier::spinoff_prover]
pub proof fn lemma_sd_entry_stored(b: Seq<u8>, p: int, e: (u128, RegV<StoredShapeV>))
    requires
        0 <= p,
        entry_ok_stored(e),
        p + enc_entry_stored(e).len() <= b.len(),
        b.subrange(p, p + enc_entry_stored(e).len()) == enc_entry_stored(e),
    ensures
        sd_entry_stored(b, p) == Some((e, p + enc_entry_stored(e).len())),
{
    lemma_le_bytes_len(e.0 as int, 16);
    lemma_le_bytes_len(e.1.stamp.time as int, 8);
    lemma_le_bytes_len(e.1.stamp.actor as int, 8);
    let tail = enc_stamp(e.1.stamp) + (match e.1.val {
        None => seq![0u8],
        Some(v) => seq![1u8] + enc_stored(v),
    });
    lemma_subrange_split(b, p, enc_u128(e.0), tail);
    lemma_sd_u128(b, p, e.0);
    let p1 = p + 16;
    let tail2 = match e.1.val {
        None => seq![0u8],
        Some(v) => seq![1u8] + enc_stored(v),
    };
    lemma_subrange_split(b, p1, enc_stamp(e.1.stamp), tail2);
    lemma_sd_stamp(b, p1, e.1.stamp);
    let p2 = p1 + 16;
    match e.1.val {
        None => {
            assert(b.subrange(p2, p2 + 1) =~= enc_bool(false));
            lemma_sd_bool(b, p2, false);
        },
        Some(v) => {
            lemma_subrange_split(b, p2, seq![1u8], enc_stored(v));
            assert(b.subrange(p2, p2 + 1) =~= enc_bool(true));
            lemma_sd_bool(b, p2, true);
            lemma_sd_stored(b, p2 + 1, v);
        },
    }
}

pub open spec fn enc_entries_stored(s: Seq<(u128, RegV<StoredShapeV>)>) -> Seq<u8>
    decreases s.len(),
{
    if s.len() == 0 {
        Seq::empty()
    } else {
        enc_entries_stored(s.drop_last()) + enc_entry_stored(s.last())
    }
}

pub open spec fn sd_entries_stored(b: Seq<u8>, p: int, n: nat) -> Option<
    (Seq<(u128, RegV<StoredShapeV>)>, int),
>
    decreases n,
{
    if n == 0 {
        if 0 <= p <= b.len() {
            Some((Seq::empty(), p))
        } else {
            None
        }
    } else {
        match sd_entry_stored(b, p) {
            Some((e, p1)) => match sd_entries_stored(b, p1, (n - 1) as nat) {
                Some((s, p2)) => Some((seq![e] + s, p2)),
                None => None,
            },
            None => None,
        }
    }
}

pub proof fn lemma_enc_entries_stored_first(s: Seq<(u128, RegV<StoredShapeV>)>)
    requires
        s.len() > 0,
    ensures
        enc_entries_stored(s) == enc_entry_stored(s[0]) + enc_entries_stored(s.drop_first()),
    decreases s.len(),
{
    if s.len() == 1 {
        assert(s.drop_last() =~= Seq::<(u128, RegV<StoredShapeV>)>::empty());
        assert(s.drop_first() =~= Seq::<(u128, RegV<StoredShapeV>)>::empty());
        assert(enc_entries_stored(s) =~= enc_entry_stored(s[0]) + enc_entries_stored(s.drop_first()));
    } else {
        lemma_enc_entries_stored_first(s.drop_last());
        assert(s.drop_last()[0] == s[0]);
        assert(s.drop_last().drop_first() =~= s.drop_first().drop_last());
        assert(s.drop_first().last() == s.last());
        assert(enc_entries_stored(s) =~= enc_entry_stored(s[0]) + enc_entries_stored(s.drop_first()));
    }
}

pub proof fn lemma_sd_entries_stored(b: Seq<u8>, p: int, s: Seq<(u128, RegV<StoredShapeV>)>)
    requires
        0 <= p,
        forall|i: int| 0 <= i < s.len() ==> entry_ok_stored(#[trigger] s[i]),
        p + enc_entries_stored(s).len() <= b.len(),
        b.subrange(p, p + enc_entries_stored(s).len()) == enc_entries_stored(s),
    ensures
        sd_entries_stored(b, p, s.len()) == Some((s, p + enc_entries_stored(s).len())),
    decreases s.len(),
{
    if s.len() == 0 {
    } else {
        lemma_enc_entries_stored_first(s);
        lemma_subrange_split(b, p, enc_entry_stored(s[0]), enc_entries_stored(s.drop_first()));
        lemma_sd_entry_stored(b, p, s[0]);
        assert forall|i: int| 0 <= i < s.drop_first().len() implies entry_ok_stored(
            #[trigger] s.drop_first()[i],
        ) by {
            assert(s.drop_first()[i] == s[i + 1]);
        }
        lemma_sd_entries_stored(b, p + enc_entry_stored(s[0]).len() as int, s.drop_first());
        assert(seq![s[0]] + s.drop_first() =~= s);
    }
}

pub open spec fn enc_section_stored(s: Seq<(u128, RegV<StoredShapeV>)>) -> Seq<u8> {
    le_bytes(s.len() as int, 8) + enc_entries_stored(s)
}

pub open spec fn sd_section_stored(b: Seq<u8>, p: int) -> Option<(Seq<(u128, RegV<StoredShapeV>)>, int)> {
    match sd_u64(b, p) {
        Some((n, p1)) => sd_entries_stored(b, p1, n as nat),
        None => None,
    }
}

pub proof fn lemma_sd_section_stored(b: Seq<u8>, p: int, s: Seq<(u128, RegV<StoredShapeV>)>)
    requires
        0 <= p,
        s.len() < 0x1_0000_0000_0000_0000,
        forall|i: int| 0 <= i < s.len() ==> entry_ok_stored(#[trigger] s[i]),
        p + enc_section_stored(s).len() <= b.len(),
        b.subrange(p, p + enc_section_stored(s).len()) == enc_section_stored(s),
    ensures
        sd_section_stored(b, p) == Some((s, p + enc_section_stored(s).len())),
{
    lemma_le_bytes_len(s.len() as int, 8);
    lemma_subrange_split(b, p, le_bytes(s.len() as int, 8), enc_entries_stored(s));
    assert(b.subrange(p, p + 8) =~= enc_u64(s.len() as u64));
    lemma_sd_u64(b, p, s.len() as u64);
    lemma_sd_entries_stored(b, p + 8, s);
}

/// Append one stored map section: the entry count then every entry.
#[verifier::rlimit(100)]
#[verifier::spinoff_prover]
pub fn write_section_stored(out: &mut Vec<u8>, m: &crate::crdt::LwwMap<StoredShape>)
    ensures
        final(out)@ == old(out)@ + enc_section_stored(m.entry_views()),
{
    let ghost base = out@;
    let n = m.entries.len();
    push_u64(out, n as u64);
    let mut i: usize = 0;
    proof {
        assert(m.entry_views().subrange(0, 0) =~= Seq::<(u128, RegV<StoredShapeV>)>::empty());
        assert(out@ =~= base + le_bytes(m.entry_views().len() as int, 8) + enc_entries_stored(
            m.entry_views().subrange(0, 0),
        ));
    }
    while i < n
        invariant
            i <= n,
            n == m.entries@.len(),
            out@ == base + le_bytes(m.entry_views().len() as int, 8) + enc_entries_stored(
                m.entry_views().subrange(0, i as int),
            ),
        decreases n - i,
    {
        let ghost pre = out@;
        let (key, reg) = &m.entries[i];
        push_u128(out, *key);
        write_stamp(out, reg.stamp);
        match &reg.val {
            None => {
                push_bool(out, false);
            },
            Some(v) => {
                push_bool(out, true);
                write_stored(out, v);
            },
        }
        proof {
            let ev = m.entry_views()[i as int];
            assert(ev == (m.entries@[i as int].0, crate::crdt::reg_view(m.entries@[i as int].1)));
            assert(out@ =~= pre + enc_entry_stored(ev));
            let t0 = m.entry_views().subrange(0, i as int);
            let t1 = m.entry_views().subrange(0, i + 1);
            assert(t1.drop_last() =~= t0);
            assert(t1.last() == ev);
            assert(out@ =~= base + le_bytes(m.entry_views().len() as int, 8) + enc_entries_stored(
                t1,
            ));
        }
        i = i + 1;
    }
    proof {
        assert(m.entry_views().subrange(0, m.entry_views().len() as int) =~= m.entry_views());
    }
}

/// Read one stored map section, building the map register by register so
/// duplicate keys resolve the same way the denoted map does.
#[verifier::rlimit(100)]
#[verifier::spinoff_prover]
pub fn read_section_stored(buf: &Vec<u8>, pos: usize) -> (r: Option<
    (crate::crdt::LwwMap<StoredShape>, usize),
>)
    ensures
        match r {
            Some((m, np)) => {
                &&& m.wf()
                &&& (match sd_section_stored(buf@, pos as int) {
                    Some((es, q)) => q == np as int && m@ == map_of(es),
                    None => false,
                })
                &&& shapes_bounded(m@)
            },
            None => sd_section_stored(buf@, pos as int) is None,
        },
{
    let (n, start) = match read_u64(buf, pos) {
        Some(x) => x,
        None => {
            return None;
        },
    };
    let mut m: crate::crdt::LwwMap<StoredShape> = crate::crdt::LwwMap::new();
    let ghost mut es: Seq<(u128, RegV<StoredShapeV>)> = Seq::empty();
    let mut p: usize = start;
    let mut i: u64 = 0;
    proof {
        assert(seq![] + Seq::<(u128, RegV<StoredShapeV>)>::empty() =~= Seq::<
            (u128, RegV<StoredShapeV>),
        >::empty());
    }
    while i < n
        invariant
            i <= n,
            p <= buf@.len(),
            m.wf(),
            m@ == map_of(es),
            shapes_bounded(m@),
            forall|j: int|
                0 <= j < es.len() ==> ((#[trigger] es[j]).1.val matches Some(v) ==> kind_bounded(
                    v.kind,
                )),
            sd_u64(buf@, pos as int) == Some((n, start as int)),
            sd_entries_stored(buf@, start as int, n as nat) == (match sd_entries_stored(
                buf@,
                p as int,
                (n - i) as nat,
            ) {
                Some((t, q)) => Some((es + t, q)),
                None => None::<(Seq<(u128, RegV<StoredShapeV>)>, int)>,
            }),
        decreases n - i,
    {
        let ghost pre_es = es;
        let (key, p1) = match read_u128(buf, p) {
            Some(x) => x,
            None => {
                proof {
                    assert((n - i) as nat != 0);
                    assert(sd_entries_stored(buf@, p as int, (n - i) as nat) is None);
                }
                return None;
            },
        };
        let (stamp, p2) = match read_stamp(buf, p1) {
            Some(x) => x,
            None => {
                proof {
                    assert((n - i) as nat != 0);
                    assert(sd_entries_stored(buf@, p as int, (n - i) as nat) is None);
                }
                return None;
            },
        };
        let (tag, p3) = match read_bool(buf, p2) {
            Some(x) => x,
            None => {
                proof {
                    assert((n - i) as nat != 0);
                    assert(sd_entries_stored(buf@, p as int, (n - i) as nat) is None);
                }
                return None;
            },
        };
        if tag {
            let (v, p4) = match read_stored(buf, p3) {
                Some(x) => x,
                None => {
                    proof {
                        assert((n - i) as nat != 0);
                        assert(sd_entries_stored(buf@, p as int, (n - i) as nat) is None);
                    }
                    return None;
                },
            };
            let ghost pre_m = m@;
            m.put(key, Reg { stamp, val: Some(v) });
            proof {
                es = pre_es.push((key, RegV { stamp, val: Some(v@) }));
                assert(es.drop_last() =~= pre_es);
                assert forall|t: Seq<(u128, RegV<StoredShapeV>)>| pre_es + (seq![
                    (key, RegV::<StoredShapeV> { stamp, val: Some(v@) }),
                ] + t) =~= es + t by {}
            }
            p = p4;
        } else {
            let ghost pre_m = m@;
            m.put(key, Reg { stamp, val: None });
            proof {
                es = pre_es.push((key, RegV { stamp, val: None }));
                assert(es.drop_last() =~= pre_es);
                assert forall|t: Seq<(u128, RegV<StoredShapeV>)>| pre_es + (seq![
                    (key, RegV::<StoredShapeV> { stamp, val: None }),
                ] + t) =~= es + t by {}
            }
            p = p3;
        }
        i = i + 1;
    }
    proof {
        assert(es + Seq::<(u128, RegV<StoredShapeV>)>::empty() =~= es);
    }
    Some((m, p))
}

// --- rank entries ---

pub open spec fn enc_entry_rank(e: (u128, RegV<i128>)) -> Seq<u8> {
    enc_u128(e.0) + (enc_stamp(e.1.stamp) + (match e.1.val {
        None => seq![0u8],
        Some(v) => seq![1u8] + enc_i128(v),
    }))
}

pub open spec fn sd_entry_rank(b: Seq<u8>, p: int) -> Option<((u128, RegV<i128>), int)> {
    match sd_u128(b, p) {
        Some((k, p1)) => match sd_stamp(b, p1) {
            Some((stamp, p2)) => match sd_bool(b, p2) {
                Some((false, p3)) => Some(((k, RegV { stamp, val: None }), p3)),
                Some((true, p3)) => match sd_i128(b, p3) {
                    Some((v, p4)) => Some(((k, RegV { stamp, val: Some(v) }), p4)),
                    None => None,
                },
                None => None,
            },
            None => None,
        },
        None => None,
    }
}

/// Per-entry conditions under which the rank entry round trip holds.
pub open spec fn entry_ok_rank(e: (u128, RegV<i128>)) -> bool {
    true
}

pub proof fn lemma_sd_entry_rank(b: Seq<u8>, p: int, e: (u128, RegV<i128>))
    requires
        0 <= p,
        entry_ok_rank(e),
        p + enc_entry_rank(e).len() <= b.len(),
        b.subrange(p, p + enc_entry_rank(e).len()) == enc_entry_rank(e),
    ensures
        sd_entry_rank(b, p) == Some((e, p + enc_entry_rank(e).len())),
{
    lemma_le_bytes_len(e.0 as int, 16);
    lemma_le_bytes_len(e.1.stamp.time as int, 8);
    lemma_le_bytes_len(e.1.stamp.actor as int, 8);
    let tail = enc_stamp(e.1.stamp) + (match e.1.val {
        None => seq![0u8],
        Some(v) => seq![1u8] + enc_i128(v),
    });
    lemma_subrange_split(b, p, enc_u128(e.0), tail);
    lemma_sd_u128(b, p, e.0);
    let p1 = p + 16;
    let tail2 = match e.1.val {
        None => seq![0u8],
        Some(v) => seq![1u8] + enc_i128(v),
    };
    lemma_subrange_split(b, p1, enc_stamp(e.1.stamp), tail2);
    lemma_sd_stamp(b, p1, e.1.stamp);
    let p2 = p1 + 16;
    match e.1.val {
        None => {
            assert(b.subrange(p2, p2 + 1) =~= enc_bool(false));
            lemma_sd_bool(b, p2, false);
        },
        Some(v) => {
            lemma_le_bytes_len(v as u128 as int, 16);
            lemma_subrange_split(b, p2, seq![1u8], enc_i128(v));
            assert(b.subrange(p2, p2 + 1) =~= enc_bool(true));
            lemma_sd_bool(b, p2, true);
            lemma_sd_i128(b, p2 + 1, v);
        },
    }
}

pub open spec fn enc_entries_rank(s: Seq<(u128, RegV<i128>)>) -> Seq<u8>
    decreases s.len(),
{
    if s.len() == 0 {
        Seq::empty()
    } else {
        enc_entries_rank(s.drop_last()) + enc_entry_rank(s.last())
    }
}

pub open spec fn sd_entries_rank(b: Seq<u8>, p: int, n: nat) -> Option<
    (Seq<(u128, RegV<i128>)>, int),
>
    decreases n,
{
    if n == 0 {
        if 0 <= p <= b.len() {
            Some((Seq::empty(), p))
        } else {
            None
        }
    } else {
        match sd_entry_rank(b, p) {
            Some((e, p1)) => match sd_entries_rank(b, p1, (n - 1) as nat) {
                Some((s, p2)) => Some((seq![e] + s, p2)),
                None => None,
            },
            None => None,
        }
    }
}

pub proof fn lemma_enc_entries_rank_first(s: Seq<(u128, RegV<i128>)>)
    requires
        s.len() > 0,
    ensures
        enc_entries_rank(s) == enc_entry_rank(s[0]) + enc_entries_rank(s.drop_first()),
    decreases s.len(),
{
    if s.len() == 1 {
        assert(s.drop_last() =~= Seq::<(u128, RegV<i128>)>::empty());
        assert(s.drop_first() =~= Seq::<(u128, RegV<i128>)>::empty());
        assert(enc_entries_rank(s) =~= enc_entry_rank(s[0]) + enc_entries_rank(s.drop_first()));
    } else {
        lemma_enc_entries_rank_first(s.drop_last());
        assert(s.drop_last()[0] == s[0]);
        assert(s.drop_last().drop_first() =~= s.drop_first().drop_last());
        assert(s.drop_first().last() == s.last());
        assert(enc_entries_rank(s) =~= enc_entry_rank(s[0]) + enc_entries_rank(s.drop_first()));
    }
}

pub proof fn lemma_sd_entries_rank(b: Seq<u8>, p: int, s: Seq<(u128, RegV<i128>)>)
    requires
        0 <= p,
        forall|i: int| 0 <= i < s.len() ==> entry_ok_rank(#[trigger] s[i]),
        p + enc_entries_rank(s).len() <= b.len(),
        b.subrange(p, p + enc_entries_rank(s).len()) == enc_entries_rank(s),
    ensures
        sd_entries_rank(b, p, s.len()) == Some((s, p + enc_entries_rank(s).len())),
    decreases s.len(),
{
    if s.len() == 0 {
    } else {
        lemma_enc_entries_rank_first(s);
        lemma_subrange_split(b, p, enc_entry_rank(s[0]), enc_entries_rank(s.drop_first()));
        lemma_sd_entry_rank(b, p, s[0]);
        assert forall|i: int| 0 <= i < s.drop_first().len() implies entry_ok_rank(
            #[trigger] s.drop_first()[i],
        ) by {
            assert(s.drop_first()[i] == s[i + 1]);
        }
        lemma_sd_entries_rank(b, p + enc_entry_rank(s[0]).len() as int, s.drop_first());
        assert(seq![s[0]] + s.drop_first() =~= s);
    }
}

pub open spec fn enc_section_rank(s: Seq<(u128, RegV<i128>)>) -> Seq<u8> {
    le_bytes(s.len() as int, 8) + enc_entries_rank(s)
}

pub open spec fn sd_section_rank(b: Seq<u8>, p: int) -> Option<(Seq<(u128, RegV<i128>)>, int)> {
    match sd_u64(b, p) {
        Some((n, p1)) => sd_entries_rank(b, p1, n as nat),
        None => None,
    }
}

pub proof fn lemma_sd_section_rank(b: Seq<u8>, p: int, s: Seq<(u128, RegV<i128>)>)
    requires
        0 <= p,
        s.len() < 0x1_0000_0000_0000_0000,
        forall|i: int| 0 <= i < s.len() ==> entry_ok_rank(#[trigger] s[i]),
        p + enc_section_rank(s).len() <= b.len(),
        b.subrange(p, p + enc_section_rank(s).len()) == enc_section_rank(s),
    ensures
        sd_section_rank(b, p) == Some((s, p + enc_section_rank(s).len())),
{
    lemma_le_bytes_len(s.len() as int, 8);
    lemma_subrange_split(b, p, le_bytes(s.len() as int, 8), enc_entries_rank(s));
    assert(b.subrange(p, p + 8) =~= enc_u64(s.len() as u64));
    lemma_sd_u64(b, p, s.len() as u64);
    lemma_sd_entries_rank(b, p + 8, s);
}

/// Append one rank map section: the entry count then every entry.
pub fn write_section_rank(out: &mut Vec<u8>, m: &crate::crdt::LwwMap<i128>)
    ensures
        final(out)@ == old(out)@ + enc_section_rank(m.entry_views()),
{
    let ghost base = out@;
    let n = m.entries.len();
    push_u64(out, n as u64);
    let mut i: usize = 0;
    proof {
        assert(m.entry_views().subrange(0, 0) =~= Seq::<(u128, RegV<i128>)>::empty());
        assert(out@ =~= base + le_bytes(m.entry_views().len() as int, 8) + enc_entries_rank(
            m.entry_views().subrange(0, 0),
        ));
    }
    while i < n
        invariant
            i <= n,
            n == m.entries@.len(),
            out@ == base + le_bytes(m.entry_views().len() as int, 8) + enc_entries_rank(
                m.entry_views().subrange(0, i as int),
            ),
        decreases n - i,
    {
        let ghost pre = out@;
        let (key, reg) = &m.entries[i];
        push_u128(out, *key);
        write_stamp(out, reg.stamp);
        match &reg.val {
            None => {
                push_bool(out, false);
            },
            Some(v) => {
                push_bool(out, true);
                push_i128(out, *v);
            },
        }
        proof {
            let ev = m.entry_views()[i as int];
            assert(ev == (m.entries@[i as int].0, crate::crdt::reg_view(m.entries@[i as int].1)));
            assert(out@ =~= pre + enc_entry_rank(ev));
            let t0 = m.entry_views().subrange(0, i as int);
            let t1 = m.entry_views().subrange(0, i + 1);
            assert(t1.drop_last() =~= t0);
            assert(t1.last() == ev);
            assert(out@ =~= base + le_bytes(m.entry_views().len() as int, 8) + enc_entries_rank(
                t1,
            ));
        }
        i = i + 1;
    }
    proof {
        assert(m.entry_views().subrange(0, m.entry_views().len() as int) =~= m.entry_views());
    }
}

/// Read one rank map section, building the map register by register so
/// duplicate keys resolve the same way the denoted map does.
pub fn read_section_rank(buf: &Vec<u8>, pos: usize) -> (r: Option<
    (crate::crdt::LwwMap<i128>, usize),
>)
    ensures
        match r {
            Some((m, np)) => {
                &&& m.wf()
                &&& (match sd_section_rank(buf@, pos as int) {
                    Some((es, q)) => q == np as int && m@ == map_of(es),
                    None => false,
                })
                
            },
            None => sd_section_rank(buf@, pos as int) is None,
        },
{
    let (n, start) = match read_u64(buf, pos) {
        Some(x) => x,
        None => {
            return None;
        },
    };
    let mut m: crate::crdt::LwwMap<i128> = crate::crdt::LwwMap::new();
    let ghost mut es: Seq<(u128, RegV<i128>)> = Seq::empty();
    let mut p: usize = start;
    let mut i: u64 = 0;
    proof {
        assert(seq![] + Seq::<(u128, RegV<i128>)>::empty() =~= Seq::<
            (u128, RegV<i128>),
        >::empty());
    }
    while i < n
        invariant
            i <= n,
            p <= buf@.len(),
            m.wf(),
            m@ == map_of(es),
            
            sd_u64(buf@, pos as int) == Some((n, start as int)),
            sd_entries_rank(buf@, start as int, n as nat) == (match sd_entries_rank(
                buf@,
                p as int,
                (n - i) as nat,
            ) {
                Some((t, q)) => Some((es + t, q)),
                None => None::<(Seq<(u128, RegV<i128>)>, int)>,
            }),
        decreases n - i,
    {
        let ghost pre_es = es;
        let (key, p1) = match read_u128(buf, p) {
            Some(x) => x,
            None => {
                proof {
                    assert((n - i) as nat != 0);
                    assert(sd_entries_rank(buf@, p as int, (n - i) as nat) is None);
                }
                return None;
            },
        };
        let (stamp, p2) = match read_stamp(buf, p1) {
            Some(x) => x,
            None => {
                proof {
                    assert((n - i) as nat != 0);
                    assert(sd_entries_rank(buf@, p as int, (n - i) as nat) is None);
                }
                return None;
            },
        };
        let (tag, p3) = match read_bool(buf, p2) {
            Some(x) => x,
            None => {
                proof {
                    assert((n - i) as nat != 0);
                    assert(sd_entries_rank(buf@, p as int, (n - i) as nat) is None);
                }
                return None;
            },
        };
        if tag {
            let (v, p4) = match read_i128(buf, p3) {
                Some(x) => x,
                None => {
                    proof {
                        assert((n - i) as nat != 0);
                        assert(sd_entries_rank(buf@, p as int, (n - i) as nat) is None);
                    }
                    return None;
                },
            };
            let ghost pre_m = m@;
            m.put(key, Reg { stamp, val: Some(v) });
            proof {
                es = pre_es.push((key, RegV { stamp, val: Some(v@) }));
                assert(es.drop_last() =~= pre_es);
                assert forall|t: Seq<(u128, RegV<i128>)>| pre_es + (seq![
                    (key, RegV::<i128> { stamp, val: Some(v@) }),
                ] + t) =~= es + t by {}
            }
            p = p4;
        } else {
            let ghost pre_m = m@;
            m.put(key, Reg { stamp, val: None });
            proof {
                es = pre_es.push((key, RegV { stamp, val: None }));
                assert(es.drop_last() =~= pre_es);
                assert forall|t: Seq<(u128, RegV<i128>)>| pre_es + (seq![
                    (key, RegV::<i128> { stamp, val: None }),
                ] + t) =~= es + t by {}
            }
            p = p3;
        }
        i = i + 1;
    }
    proof {
        assert(es + Seq::<(u128, RegV<i128>)>::empty() =~= es);
    }
    Some((m, p))
}

// --- grec entries ---

pub open spec fn enc_entry_grec(e: (u128, RegV<GroupRecV>)) -> Seq<u8> {
    enc_u128(e.0) + (enc_stamp(e.1.stamp) + (match e.1.val {
        None => seq![0u8],
        Some(v) => seq![1u8] + enc_grec(v),
    }))
}

pub open spec fn sd_entry_grec(b: Seq<u8>, p: int) -> Option<((u128, RegV<GroupRecV>), int)> {
    match sd_u128(b, p) {
        Some((k, p1)) => match sd_stamp(b, p1) {
            Some((stamp, p2)) => match sd_bool(b, p2) {
                Some((false, p3)) => Some(((k, RegV { stamp, val: None }), p3)),
                Some((true, p3)) => match sd_grec(b, p3) {
                    Some((v, p4)) => Some(((k, RegV { stamp, val: Some(v) }), p4)),
                    None => None,
                },
                None => None,
            },
            None => None,
        },
        None => None,
    }
}

/// Per-entry conditions under which the grec entry round trip holds.
pub open spec fn entry_ok_grec(e: (u128, RegV<GroupRecV>)) -> bool {
    match e.1.val {
        Some(v) => v.members.len() < 0x1_0000_0000_0000_0000,
        None => true,
    }
}

pub proof fn lemma_sd_entry_grec(b: Seq<u8>, p: int, e: (u128, RegV<GroupRecV>))
    requires
        0 <= p,
        entry_ok_grec(e),
        p + enc_entry_grec(e).len() <= b.len(),
        b.subrange(p, p + enc_entry_grec(e).len()) == enc_entry_grec(e),
    ensures
        sd_entry_grec(b, p) == Some((e, p + enc_entry_grec(e).len())),
{
    lemma_le_bytes_len(e.0 as int, 16);
    lemma_le_bytes_len(e.1.stamp.time as int, 8);
    lemma_le_bytes_len(e.1.stamp.actor as int, 8);
    let tail = enc_stamp(e.1.stamp) + (match e.1.val {
        None => seq![0u8],
        Some(v) => seq![1u8] + enc_grec(v),
    });
    lemma_subrange_split(b, p, enc_u128(e.0), tail);
    lemma_sd_u128(b, p, e.0);
    let p1 = p + 16;
    let tail2 = match e.1.val {
        None => seq![0u8],
        Some(v) => seq![1u8] + enc_grec(v),
    };
    lemma_subrange_split(b, p1, enc_stamp(e.1.stamp), tail2);
    lemma_sd_stamp(b, p1, e.1.stamp);
    let p2 = p1 + 16;
    match e.1.val {
        None => {
            assert(b.subrange(p2, p2 + 1) =~= enc_bool(false));
            lemma_sd_bool(b, p2, false);
        },
        Some(v) => {
            lemma_subrange_split(b, p2, seq![1u8], enc_grec(v));
            assert(b.subrange(p2, p2 + 1) =~= enc_bool(true));
            lemma_sd_bool(b, p2, true);
            lemma_sd_grec(b, p2 + 1, v);
        },
    }
}

pub open spec fn enc_entries_grec(s: Seq<(u128, RegV<GroupRecV>)>) -> Seq<u8>
    decreases s.len(),
{
    if s.len() == 0 {
        Seq::empty()
    } else {
        enc_entries_grec(s.drop_last()) + enc_entry_grec(s.last())
    }
}

pub open spec fn sd_entries_grec(b: Seq<u8>, p: int, n: nat) -> Option<
    (Seq<(u128, RegV<GroupRecV>)>, int),
>
    decreases n,
{
    if n == 0 {
        if 0 <= p <= b.len() {
            Some((Seq::empty(), p))
        } else {
            None
        }
    } else {
        match sd_entry_grec(b, p) {
            Some((e, p1)) => match sd_entries_grec(b, p1, (n - 1) as nat) {
                Some((s, p2)) => Some((seq![e] + s, p2)),
                None => None,
            },
            None => None,
        }
    }
}

pub proof fn lemma_enc_entries_grec_first(s: Seq<(u128, RegV<GroupRecV>)>)
    requires
        s.len() > 0,
    ensures
        enc_entries_grec(s) == enc_entry_grec(s[0]) + enc_entries_grec(s.drop_first()),
    decreases s.len(),
{
    if s.len() == 1 {
        assert(s.drop_last() =~= Seq::<(u128, RegV<GroupRecV>)>::empty());
        assert(s.drop_first() =~= Seq::<(u128, RegV<GroupRecV>)>::empty());
        assert(enc_entries_grec(s) =~= enc_entry_grec(s[0]) + enc_entries_grec(s.drop_first()));
    } else {
        lemma_enc_entries_grec_first(s.drop_last());
        assert(s.drop_last()[0] == s[0]);
        assert(s.drop_last().drop_first() =~= s.drop_first().drop_last());
        assert(s.drop_first().last() == s.last());
        assert(enc_entries_grec(s) =~= enc_entry_grec(s[0]) + enc_entries_grec(s.drop_first()));
    }
}

pub proof fn lemma_sd_entries_grec(b: Seq<u8>, p: int, s: Seq<(u128, RegV<GroupRecV>)>)
    requires
        0 <= p,
        forall|i: int| 0 <= i < s.len() ==> entry_ok_grec(#[trigger] s[i]),
        p + enc_entries_grec(s).len() <= b.len(),
        b.subrange(p, p + enc_entries_grec(s).len()) == enc_entries_grec(s),
    ensures
        sd_entries_grec(b, p, s.len()) == Some((s, p + enc_entries_grec(s).len())),
    decreases s.len(),
{
    if s.len() == 0 {
    } else {
        lemma_enc_entries_grec_first(s);
        lemma_subrange_split(b, p, enc_entry_grec(s[0]), enc_entries_grec(s.drop_first()));
        lemma_sd_entry_grec(b, p, s[0]);
        assert forall|i: int| 0 <= i < s.drop_first().len() implies entry_ok_grec(
            #[trigger] s.drop_first()[i],
        ) by {
            assert(s.drop_first()[i] == s[i + 1]);
        }
        lemma_sd_entries_grec(b, p + enc_entry_grec(s[0]).len() as int, s.drop_first());
        assert(seq![s[0]] + s.drop_first() =~= s);
    }
}

pub open spec fn enc_section_grec(s: Seq<(u128, RegV<GroupRecV>)>) -> Seq<u8> {
    le_bytes(s.len() as int, 8) + enc_entries_grec(s)
}

pub open spec fn sd_section_grec(b: Seq<u8>, p: int) -> Option<(Seq<(u128, RegV<GroupRecV>)>, int)> {
    match sd_u64(b, p) {
        Some((n, p1)) => sd_entries_grec(b, p1, n as nat),
        None => None,
    }
}

pub proof fn lemma_sd_section_grec(b: Seq<u8>, p: int, s: Seq<(u128, RegV<GroupRecV>)>)
    requires
        0 <= p,
        s.len() < 0x1_0000_0000_0000_0000,
        forall|i: int| 0 <= i < s.len() ==> entry_ok_grec(#[trigger] s[i]),
        p + enc_section_grec(s).len() <= b.len(),
        b.subrange(p, p + enc_section_grec(s).len()) == enc_section_grec(s),
    ensures
        sd_section_grec(b, p) == Some((s, p + enc_section_grec(s).len())),
{
    lemma_le_bytes_len(s.len() as int, 8);
    lemma_subrange_split(b, p, le_bytes(s.len() as int, 8), enc_entries_grec(s));
    assert(b.subrange(p, p + 8) =~= enc_u64(s.len() as u64));
    lemma_sd_u64(b, p, s.len() as u64);
    lemma_sd_entries_grec(b, p + 8, s);
}

/// Append one grec map section: the entry count then every entry.
pub fn write_section_grec(out: &mut Vec<u8>, m: &crate::crdt::LwwMap<GroupRec>)
    ensures
        final(out)@ == old(out)@ + enc_section_grec(m.entry_views()),
{
    let ghost base = out@;
    let n = m.entries.len();
    push_u64(out, n as u64);
    let mut i: usize = 0;
    proof {
        assert(m.entry_views().subrange(0, 0) =~= Seq::<(u128, RegV<GroupRecV>)>::empty());
        assert(out@ =~= base + le_bytes(m.entry_views().len() as int, 8) + enc_entries_grec(
            m.entry_views().subrange(0, 0),
        ));
    }
    while i < n
        invariant
            i <= n,
            n == m.entries@.len(),
            out@ == base + le_bytes(m.entry_views().len() as int, 8) + enc_entries_grec(
                m.entry_views().subrange(0, i as int),
            ),
        decreases n - i,
    {
        let ghost pre = out@;
        let (key, reg) = &m.entries[i];
        push_u128(out, *key);
        write_stamp(out, reg.stamp);
        match &reg.val {
            None => {
                push_bool(out, false);
            },
            Some(v) => {
                push_bool(out, true);
                write_grec(out, v);
            },
        }
        proof {
            let ev = m.entry_views()[i as int];
            assert(ev == (m.entries@[i as int].0, crate::crdt::reg_view(m.entries@[i as int].1)));
            assert(out@ =~= pre + enc_entry_grec(ev));
            let t0 = m.entry_views().subrange(0, i as int);
            let t1 = m.entry_views().subrange(0, i + 1);
            assert(t1.drop_last() =~= t0);
            assert(t1.last() == ev);
            assert(out@ =~= base + le_bytes(m.entry_views().len() as int, 8) + enc_entries_grec(
                t1,
            ));
        }
        i = i + 1;
    }
    proof {
        assert(m.entry_views().subrange(0, m.entry_views().len() as int) =~= m.entry_views());
    }
}

/// Read one grec map section, building the map register by register so
/// duplicate keys resolve the same way the denoted map does.
pub fn read_section_grec(buf: &Vec<u8>, pos: usize) -> (r: Option<
    (crate::crdt::LwwMap<GroupRec>, usize),
>)
    ensures
        match r {
            Some((m, np)) => {
                &&& m.wf()
                &&& (match sd_section_grec(buf@, pos as int) {
                    Some((es, q)) => q == np as int && m@ == map_of(es),
                    None => false,
                })
                
            },
            None => sd_section_grec(buf@, pos as int) is None,
        },
{
    let (n, start) = match read_u64(buf, pos) {
        Some(x) => x,
        None => {
            return None;
        },
    };
    let mut m: crate::crdt::LwwMap<GroupRec> = crate::crdt::LwwMap::new();
    let ghost mut es: Seq<(u128, RegV<GroupRecV>)> = Seq::empty();
    let mut p: usize = start;
    let mut i: u64 = 0;
    proof {
        assert(seq![] + Seq::<(u128, RegV<GroupRecV>)>::empty() =~= Seq::<
            (u128, RegV<GroupRecV>),
        >::empty());
    }
    while i < n
        invariant
            i <= n,
            p <= buf@.len(),
            m.wf(),
            m@ == map_of(es),
            
            sd_u64(buf@, pos as int) == Some((n, start as int)),
            sd_entries_grec(buf@, start as int, n as nat) == (match sd_entries_grec(
                buf@,
                p as int,
                (n - i) as nat,
            ) {
                Some((t, q)) => Some((es + t, q)),
                None => None::<(Seq<(u128, RegV<GroupRecV>)>, int)>,
            }),
        decreases n - i,
    {
        let ghost pre_es = es;
        let (key, p1) = match read_u128(buf, p) {
            Some(x) => x,
            None => {
                proof {
                    assert((n - i) as nat != 0);
                    assert(sd_entries_grec(buf@, p as int, (n - i) as nat) is None);
                }
                return None;
            },
        };
        let (stamp, p2) = match read_stamp(buf, p1) {
            Some(x) => x,
            None => {
                proof {
                    assert((n - i) as nat != 0);
                    assert(sd_entries_grec(buf@, p as int, (n - i) as nat) is None);
                }
                return None;
            },
        };
        let (tag, p3) = match read_bool(buf, p2) {
            Some(x) => x,
            None => {
                proof {
                    assert((n - i) as nat != 0);
                    assert(sd_entries_grec(buf@, p as int, (n - i) as nat) is None);
                }
                return None;
            },
        };
        if tag {
            let (v, p4) = match read_grec(buf, p3) {
                Some(x) => x,
                None => {
                    proof {
                        assert((n - i) as nat != 0);
                        assert(sd_entries_grec(buf@, p as int, (n - i) as nat) is None);
                    }
                    return None;
                },
            };
            let ghost pre_m = m@;
            m.put(key, Reg { stamp, val: Some(v) });
            proof {
                es = pre_es.push((key, RegV { stamp, val: Some(v@) }));
                assert(es.drop_last() =~= pre_es);
                assert forall|t: Seq<(u128, RegV<GroupRecV>)>| pre_es + (seq![
                    (key, RegV::<GroupRecV> { stamp, val: Some(v@) }),
                ] + t) =~= es + t by {}
            }
            p = p4;
        } else {
            let ghost pre_m = m@;
            m.put(key, Reg { stamp, val: None });
            proof {
                es = pre_es.push((key, RegV { stamp, val: None }));
                assert(es.drop_last() =~= pre_es);
                assert forall|t: Seq<(u128, RegV<GroupRecV>)>| pre_es + (seq![
                    (key, RegV::<GroupRecV> { stamp, val: None }),
                ] + t) =~= es + t by {}
            }
            p = p3;
        }
        i = i + 1;
    }
    proof {
        assert(es + Seq::<(u128, RegV<GroupRecV>)>::empty() =~= es);
    }
    Some((m, p))
}

// --- lrec entries ---

pub open spec fn enc_entry_lrec(e: (u128, RegV<LayerRecV>)) -> Seq<u8> {
    enc_u128(e.0) + (enc_stamp(e.1.stamp) + (match e.1.val {
        None => seq![0u8],
        Some(v) => seq![1u8] + enc_lrec(v),
    }))
}

pub open spec fn sd_entry_lrec(b: Seq<u8>, p: int) -> Option<((u128, RegV<LayerRecV>), int)> {
    match sd_u128(b, p) {
        Some((k, p1)) => match sd_stamp(b, p1) {
            Some((stamp, p2)) => match sd_bool(b, p2) {
                Some((false, p3)) => Some(((k, RegV { stamp, val: None }), p3)),
                Some((true, p3)) => match sd_lrec(b, p3) {
                    Some((v, p4)) => Some(((k, RegV { stamp, val: Some(v) }), p4)),
                    None => None,
                },
                None => None,
            },
            None => None,
        },
        None => None,
    }
}

/// Per-entry conditions under which the lrec entry round trip holds.
pub open spec fn entry_ok_lrec(e: (u128, RegV<LayerRecV>)) -> bool {
    match e.1.val {
        Some(v) => v.name.len() < 0x1_0000_0000_0000_0000,
        None => true,
    }
}

pub proof fn lemma_sd_entry_lrec(b: Seq<u8>, p: int, e: (u128, RegV<LayerRecV>))
    requires
        0 <= p,
        entry_ok_lrec(e),
        p + enc_entry_lrec(e).len() <= b.len(),
        b.subrange(p, p + enc_entry_lrec(e).len()) == enc_entry_lrec(e),
    ensures
        sd_entry_lrec(b, p) == Some((e, p + enc_entry_lrec(e).len())),
{
    lemma_le_bytes_len(e.0 as int, 16);
    lemma_le_bytes_len(e.1.stamp.time as int, 8);
    lemma_le_bytes_len(e.1.stamp.actor as int, 8);
    let tail = enc_stamp(e.1.stamp) + (match e.1.val {
        None => seq![0u8],
        Some(v) => seq![1u8] + enc_lrec(v),
    });
    lemma_subrange_split(b, p, enc_u128(e.0), tail);
    lemma_sd_u128(b, p, e.0);
    let p1 = p + 16;
    let tail2 = match e.1.val {
        None => seq![0u8],
        Some(v) => seq![1u8] + enc_lrec(v),
    };
    lemma_subrange_split(b, p1, enc_stamp(e.1.stamp), tail2);
    lemma_sd_stamp(b, p1, e.1.stamp);
    let p2 = p1 + 16;
    match e.1.val {
        None => {
            assert(b.subrange(p2, p2 + 1) =~= enc_bool(false));
            lemma_sd_bool(b, p2, false);
        },
        Some(v) => {
            lemma_subrange_split(b, p2, seq![1u8], enc_lrec(v));
            assert(b.subrange(p2, p2 + 1) =~= enc_bool(true));
            lemma_sd_bool(b, p2, true);
            lemma_sd_lrec(b, p2 + 1, v);
        },
    }
}

pub open spec fn enc_entries_lrec(s: Seq<(u128, RegV<LayerRecV>)>) -> Seq<u8>
    decreases s.len(),
{
    if s.len() == 0 {
        Seq::empty()
    } else {
        enc_entries_lrec(s.drop_last()) + enc_entry_lrec(s.last())
    }
}

pub open spec fn sd_entries_lrec(b: Seq<u8>, p: int, n: nat) -> Option<
    (Seq<(u128, RegV<LayerRecV>)>, int),
>
    decreases n,
{
    if n == 0 {
        if 0 <= p <= b.len() {
            Some((Seq::empty(), p))
        } else {
            None
        }
    } else {
        match sd_entry_lrec(b, p) {
            Some((e, p1)) => match sd_entries_lrec(b, p1, (n - 1) as nat) {
                Some((s, p2)) => Some((seq![e] + s, p2)),
                None => None,
            },
            None => None,
        }
    }
}

pub proof fn lemma_enc_entries_lrec_first(s: Seq<(u128, RegV<LayerRecV>)>)
    requires
        s.len() > 0,
    ensures
        enc_entries_lrec(s) == enc_entry_lrec(s[0]) + enc_entries_lrec(s.drop_first()),
    decreases s.len(),
{
    if s.len() == 1 {
        assert(s.drop_last() =~= Seq::<(u128, RegV<LayerRecV>)>::empty());
        assert(s.drop_first() =~= Seq::<(u128, RegV<LayerRecV>)>::empty());
        assert(enc_entries_lrec(s) =~= enc_entry_lrec(s[0]) + enc_entries_lrec(s.drop_first()));
    } else {
        lemma_enc_entries_lrec_first(s.drop_last());
        assert(s.drop_last()[0] == s[0]);
        assert(s.drop_last().drop_first() =~= s.drop_first().drop_last());
        assert(s.drop_first().last() == s.last());
        assert(enc_entries_lrec(s) =~= enc_entry_lrec(s[0]) + enc_entries_lrec(s.drop_first()));
    }
}

pub proof fn lemma_sd_entries_lrec(b: Seq<u8>, p: int, s: Seq<(u128, RegV<LayerRecV>)>)
    requires
        0 <= p,
        forall|i: int| 0 <= i < s.len() ==> entry_ok_lrec(#[trigger] s[i]),
        p + enc_entries_lrec(s).len() <= b.len(),
        b.subrange(p, p + enc_entries_lrec(s).len()) == enc_entries_lrec(s),
    ensures
        sd_entries_lrec(b, p, s.len()) == Some((s, p + enc_entries_lrec(s).len())),
    decreases s.len(),
{
    if s.len() == 0 {
    } else {
        lemma_enc_entries_lrec_first(s);
        lemma_subrange_split(b, p, enc_entry_lrec(s[0]), enc_entries_lrec(s.drop_first()));
        lemma_sd_entry_lrec(b, p, s[0]);
        assert forall|i: int| 0 <= i < s.drop_first().len() implies entry_ok_lrec(
            #[trigger] s.drop_first()[i],
        ) by {
            assert(s.drop_first()[i] == s[i + 1]);
        }
        lemma_sd_entries_lrec(b, p + enc_entry_lrec(s[0]).len() as int, s.drop_first());
        assert(seq![s[0]] + s.drop_first() =~= s);
    }
}

pub open spec fn enc_section_lrec(s: Seq<(u128, RegV<LayerRecV>)>) -> Seq<u8> {
    le_bytes(s.len() as int, 8) + enc_entries_lrec(s)
}

pub open spec fn sd_section_lrec(b: Seq<u8>, p: int) -> Option<(Seq<(u128, RegV<LayerRecV>)>, int)> {
    match sd_u64(b, p) {
        Some((n, p1)) => sd_entries_lrec(b, p1, n as nat),
        None => None,
    }
}

pub proof fn lemma_sd_section_lrec(b: Seq<u8>, p: int, s: Seq<(u128, RegV<LayerRecV>)>)
    requires
        0 <= p,
        s.len() < 0x1_0000_0000_0000_0000,
        forall|i: int| 0 <= i < s.len() ==> entry_ok_lrec(#[trigger] s[i]),
        p + enc_section_lrec(s).len() <= b.len(),
        b.subrange(p, p + enc_section_lrec(s).len()) == enc_section_lrec(s),
    ensures
        sd_section_lrec(b, p) == Some((s, p + enc_section_lrec(s).len())),
{
    lemma_le_bytes_len(s.len() as int, 8);
    lemma_subrange_split(b, p, le_bytes(s.len() as int, 8), enc_entries_lrec(s));
    assert(b.subrange(p, p + 8) =~= enc_u64(s.len() as u64));
    lemma_sd_u64(b, p, s.len() as u64);
    lemma_sd_entries_lrec(b, p + 8, s);
}

/// Append one lrec map section: the entry count then every entry.
pub fn write_section_lrec(out: &mut Vec<u8>, m: &crate::crdt::LwwMap<LayerRec>)
    ensures
        final(out)@ == old(out)@ + enc_section_lrec(m.entry_views()),
{
    let ghost base = out@;
    let n = m.entries.len();
    push_u64(out, n as u64);
    let mut i: usize = 0;
    proof {
        assert(m.entry_views().subrange(0, 0) =~= Seq::<(u128, RegV<LayerRecV>)>::empty());
        assert(out@ =~= base + le_bytes(m.entry_views().len() as int, 8) + enc_entries_lrec(
            m.entry_views().subrange(0, 0),
        ));
    }
    while i < n
        invariant
            i <= n,
            n == m.entries@.len(),
            out@ == base + le_bytes(m.entry_views().len() as int, 8) + enc_entries_lrec(
                m.entry_views().subrange(0, i as int),
            ),
        decreases n - i,
    {
        let ghost pre = out@;
        let (key, reg) = &m.entries[i];
        push_u128(out, *key);
        write_stamp(out, reg.stamp);
        match &reg.val {
            None => {
                push_bool(out, false);
            },
            Some(v) => {
                push_bool(out, true);
                write_lrec(out, v);
            },
        }
        proof {
            let ev = m.entry_views()[i as int];
            assert(ev == (m.entries@[i as int].0, crate::crdt::reg_view(m.entries@[i as int].1)));
            assert(out@ =~= pre + enc_entry_lrec(ev));
            let t0 = m.entry_views().subrange(0, i as int);
            let t1 = m.entry_views().subrange(0, i + 1);
            assert(t1.drop_last() =~= t0);
            assert(t1.last() == ev);
            assert(out@ =~= base + le_bytes(m.entry_views().len() as int, 8) + enc_entries_lrec(
                t1,
            ));
        }
        i = i + 1;
    }
    proof {
        assert(m.entry_views().subrange(0, m.entry_views().len() as int) =~= m.entry_views());
    }
}

/// Read one lrec map section, building the map register by register so
/// duplicate keys resolve the same way the denoted map does.
pub fn read_section_lrec(buf: &Vec<u8>, pos: usize) -> (r: Option<
    (crate::crdt::LwwMap<LayerRec>, usize),
>)
    ensures
        match r {
            Some((m, np)) => {
                &&& m.wf()
                &&& (match sd_section_lrec(buf@, pos as int) {
                    Some((es, q)) => q == np as int && m@ == map_of(es),
                    None => false,
                })
                
            },
            None => sd_section_lrec(buf@, pos as int) is None,
        },
{
    let (n, start) = match read_u64(buf, pos) {
        Some(x) => x,
        None => {
            return None;
        },
    };
    let mut m: crate::crdt::LwwMap<LayerRec> = crate::crdt::LwwMap::new();
    let ghost mut es: Seq<(u128, RegV<LayerRecV>)> = Seq::empty();
    let mut p: usize = start;
    let mut i: u64 = 0;
    proof {
        assert(seq![] + Seq::<(u128, RegV<LayerRecV>)>::empty() =~= Seq::<
            (u128, RegV<LayerRecV>),
        >::empty());
    }
    while i < n
        invariant
            i <= n,
            p <= buf@.len(),
            m.wf(),
            m@ == map_of(es),
            
            sd_u64(buf@, pos as int) == Some((n, start as int)),
            sd_entries_lrec(buf@, start as int, n as nat) == (match sd_entries_lrec(
                buf@,
                p as int,
                (n - i) as nat,
            ) {
                Some((t, q)) => Some((es + t, q)),
                None => None::<(Seq<(u128, RegV<LayerRecV>)>, int)>,
            }),
        decreases n - i,
    {
        let ghost pre_es = es;
        let (key, p1) = match read_u128(buf, p) {
            Some(x) => x,
            None => {
                proof {
                    assert((n - i) as nat != 0);
                    assert(sd_entries_lrec(buf@, p as int, (n - i) as nat) is None);
                }
                return None;
            },
        };
        let (stamp, p2) = match read_stamp(buf, p1) {
            Some(x) => x,
            None => {
                proof {
                    assert((n - i) as nat != 0);
                    assert(sd_entries_lrec(buf@, p as int, (n - i) as nat) is None);
                }
                return None;
            },
        };
        let (tag, p3) = match read_bool(buf, p2) {
            Some(x) => x,
            None => {
                proof {
                    assert((n - i) as nat != 0);
                    assert(sd_entries_lrec(buf@, p as int, (n - i) as nat) is None);
                }
                return None;
            },
        };
        if tag {
            let (v, p4) = match read_lrec(buf, p3) {
                Some(x) => x,
                None => {
                    proof {
                        assert((n - i) as nat != 0);
                        assert(sd_entries_lrec(buf@, p as int, (n - i) as nat) is None);
                    }
                    return None;
                },
            };
            let ghost pre_m = m@;
            m.put(key, Reg { stamp, val: Some(v) });
            proof {
                es = pre_es.push((key, RegV { stamp, val: Some(v@) }));
                assert(es.drop_last() =~= pre_es);
                assert forall|t: Seq<(u128, RegV<LayerRecV>)>| pre_es + (seq![
                    (key, RegV::<LayerRecV> { stamp, val: Some(v@) }),
                ] + t) =~= es + t by {}
            }
            p = p4;
        } else {
            let ghost pre_m = m@;
            m.put(key, Reg { stamp, val: None });
            proof {
                es = pre_es.push((key, RegV { stamp, val: None }));
                assert(es.drop_last() =~= pre_es);
                assert forall|t: Seq<(u128, RegV<LayerRecV>)>| pre_es + (seq![
                    (key, RegV::<LayerRecV> { stamp, val: None }),
                ] + t) =~= es + t by {}
            }
            p = p3;
        }
        i = i + 1;
    }
    proof {
        assert(es + Seq::<(u128, RegV<LayerRecV>)>::empty() =~= es);
    }
    Some((m, p))
}

// --- whole states ---

/// The encoding of a whole replica state: its five sections in order.
pub open spec fn enc_state(
    se: Seq<(u128, RegV<StoredShapeV>)>,
    oe: Seq<(u128, RegV<i128>)>,
    ge: Seq<(u128, RegV<GroupRecV>)>,
    le: Seq<(u128, RegV<LayerRecV>)>,
    loe: Seq<(u128, RegV<i128>)>,
) -> Seq<u8> {
    enc_section_stored(se) + (enc_section_rank(oe) + (enc_section_grec(ge) + (enc_section_lrec(le)
        + enc_section_rank(loe))))
}

/// Spec-level parse of a whole replica state.
pub open spec fn sd_state(b: Seq<u8>, p: int) -> Option<
    (
        (
            Seq<(u128, RegV<StoredShapeV>)>,
            Seq<(u128, RegV<i128>)>,
            Seq<(u128, RegV<GroupRecV>)>,
            Seq<(u128, RegV<LayerRecV>)>,
            Seq<(u128, RegV<i128>)>,
        ),
        int,
    ),
> {
    match sd_section_stored(b, p) {
        Some((se, p1)) => match sd_section_rank(b, p1) {
            Some((oe, p2)) => match sd_section_grec(b, p2) {
                Some((ge, p3)) => match sd_section_lrec(b, p3) {
                    Some((le, p4)) => match sd_section_rank(b, p4) {
                        Some((loe, p5)) => Some(((se, oe, ge, le, loe), p5)),
                        None => None,
                    },
                    None => None,
                },
                None => None,
            },
            None => None,
        },
        None => None,
    }
}

/// The conditions under which a state's encoding round-trips: section
/// counts fit their prefixes and every entry is well-formed.
pub open spec fn state_enc_ok(
    se: Seq<(u128, RegV<StoredShapeV>)>,
    oe: Seq<(u128, RegV<i128>)>,
    ge: Seq<(u128, RegV<GroupRecV>)>,
    le: Seq<(u128, RegV<LayerRecV>)>,
    loe: Seq<(u128, RegV<i128>)>,
) -> bool {
    &&& se.len() < 0x1_0000_0000_0000_0000
    &&& oe.len() < 0x1_0000_0000_0000_0000
    &&& ge.len() < 0x1_0000_0000_0000_0000
    &&& le.len() < 0x1_0000_0000_0000_0000
    &&& loe.len() < 0x1_0000_0000_0000_0000
    &&& forall|i: int| 0 <= i < se.len() ==> entry_ok_stored(#[trigger] se[i])
    &&& forall|i: int| 0 <= i < ge.len() ==> entry_ok_grec(#[trigger] ge[i])
    &&& forall|i: int| 0 <= i < le.len() ==> entry_ok_lrec(#[trigger] le[i])
}

/// Parsing a state out of its own encoding gives the entries back.
#[verifier::rlimit(100)]
#[verifier::spinoff_prover]
pub proof fn lemma_sd_state(
    b: Seq<u8>,
    p: int,
    se: Seq<(u128, RegV<StoredShapeV>)>,
    oe: Seq<(u128, RegV<i128>)>,
    ge: Seq<(u128, RegV<GroupRecV>)>,
    le: Seq<(u128, RegV<LayerRecV>)>,
    loe: Seq<(u128, RegV<i128>)>,
)
    requires
        0 <= p,
        state_enc_ok(se, oe, ge, le, loe),
        p + enc_state(se, oe, ge, le, loe).len() <= b.len(),
        b.subrange(p, p + enc_state(se, oe, ge, le, loe).len()) == enc_state(se, oe, ge, le, loe),
    ensures
        sd_state(b, p) == Some(((se, oe, ge, le, loe), p + enc_state(se, oe, ge, le, loe).len())),
{
    let s1 = enc_section_stored(se);
    let s2 = enc_section_rank(oe);
    let s3 = enc_section_grec(ge);
    let s4 = enc_section_lrec(le);
    let s5 = enc_section_rank(loe);
    lemma_subrange_split(b, p, s1, s2 + (s3 + (s4 + s5)));
    lemma_sd_section_stored(b, p, se);
    let p1 = p + s1.len();
    lemma_subrange_split(b, p1, s2, s3 + (s4 + s5));
    assert forall|i: int| 0 <= i < oe.len() implies entry_ok_rank(#[trigger] oe[i]) by {}
    lemma_sd_section_rank(b, p1, oe);
    let p2 = p1 + s2.len();
    lemma_subrange_split(b, p2, s3, s4 + s5);
    lemma_sd_section_grec(b, p2, ge);
    let p3 = p2 + s3.len();
    lemma_subrange_split(b, p3, s4, s5);
    lemma_sd_section_lrec(b, p3, le);
    let p4 = p3 + s4.len();
    assert forall|i: int| 0 <= i < loe.len() implies entry_ok_rank(#[trigger] loe[i]) by {}
    lemma_sd_section_rank(b, p4, loe);
}

/// Encode a replica state as one sync message payload.
pub fn encode_state(d: &DocState) -> (r: Vec<u8>)
    ensures
        r@ == enc_state(
            d.shapes.entry_views(),
            d.order.entry_views(),
            d.groups.entry_views(),
            d.layers.entry_views(),
            d.layer_order.entry_views(),
        ),
{
    let mut out: Vec<u8> = Vec::new();
    write_section_stored(&mut out, &d.shapes);
    write_section_rank(&mut out, &d.order);
    write_section_grec(&mut out, &d.groups);
    write_section_lrec(&mut out, &d.layers);
    write_section_rank(&mut out, &d.layer_order);
    proof {
        assert(out@ =~= enc_state(
            d.shapes.entry_views(),
            d.order.entry_views(),
            d.groups.entry_views(),
            d.layers.entry_views(),
            d.layer_order.entry_views(),
        ));
    }
    out
}

/// Decode a sync message payload into a replica state.  The whole
/// payload must be consumed.
pub fn decode_state(buf: &Vec<u8>) -> (r: Option<DocState>)
    ensures
        match r {
            Some(st) => {
                &&& st.wf()
                &&& shapes_bounded(st@.shapes)
                &&& (match sd_state(buf@, 0) {
                    Some(((se, oe, ge, le, loe), q)) => {
                        &&& q == buf@.len()
                        &&& st@.shapes == map_of(se)
                        &&& st@.order == map_of(oe)
                        &&& st@.groups == map_of(ge)
                        &&& st@.layers == map_of(le)
                        &&& st@.layer_order == map_of(loe)
                    },
                    None => false,
                })
            },
            None => match sd_state(buf@, 0) {
                Some((es, q)) => q != buf@.len(),
                None => true,
            },
        },
{
    let (shapes, p1) = match read_section_stored(buf, 0) {
        Some(x) => x,
        None => {
            return None;
        },
    };
    let (order, p2) = match read_section_rank(buf, p1) {
        Some(x) => x,
        None => {
            return None;
        },
    };
    let (groups, p3) = match read_section_grec(buf, p2) {
        Some(x) => x,
        None => {
            return None;
        },
    };
    let (layers, p4) = match read_section_lrec(buf, p3) {
        Some(x) => x,
        None => {
            return None;
        },
    };
    let (layer_order, p5) = match read_section_rank(buf, p4) {
        Some(x) => x,
        None => {
            return None;
        },
    };
    if p5 != buf.len() {
        return None;
    }
    Some(DocState { shapes, order, groups, layers, layer_order })
}

// --- wire framing ---

/// The document-sync frame: an 8-byte little-endian length then the
/// payload; a zero-length payload is the valid "nothing right now"
/// sentinel.
pub open spec fn enc_frame(payload: Seq<u8>) -> Seq<u8> {
    le_bytes(payload.len() as int, 8) + payload
}

/// Spec-level parse of a frame.
pub open spec fn sd_frame(b: Seq<u8>, p: int) -> Option<(Seq<u8>, int)> {
    match sd_u64(b, p) {
        Some((n, p1)) => if p1 + n <= b.len() {
            Some((b.subrange(p1, p1 + n), p1 + n))
        } else {
            None
        },
        None => None,
    }
}

/// Frame a payload for the wire.
pub fn encode_frame(payload: &Vec<u8>) -> (r: Vec<u8>)
    ensures
        r@ == enc_frame(payload@),
{
    let mut out: Vec<u8> = Vec::new();
    push_u64(&mut out, payload.len() as u64);
    let ghost mid = out@;
    let mut i: usize = 0;
    while i < payload.len()
        invariant
            i <= payload@.len(),
            out@ == mid + payload@.subrange(0, i as int),
        decreases payload@.len() - i,
    {
        out.push(payload[i]);
        proof {
            assert(out@ =~= mid + payload@.subrange(0, i + 1));
        }
        i = i + 1;
    }
    proof {
        assert(payload@.subrange(0, payload@.len() as int) =~= payload@);
        assert(out@ =~= enc_frame(payload@));
    }
    out
}

/// Read one frame at `pos`, returning its payload and the next position.
pub fn decode_frame(buf: &Vec<u8>, pos: usize) -> (r: Option<(Vec<u8>, usize)>)
    ensures
        match r {
            Some((v, np)) => sd_frame(buf@, pos as int) == Some((v@, np as int)),
            None => sd_frame(buf@, pos as int) is None,
        },
{
    let (n, p1) = match read_u64(buf, pos) {
        Some(x) => x,
        None => {
            return None;
        },
    };
    if n > (buf.len() - p1) as u64 {
        return None;
    }
    let count = n as usize;
    let blen = buf.len();
    let mut v: Vec<u8> = Vec::new();
    let mut i: usize = 0;
    while i < count
        invariant
            i <= count,
            p1 + count <= blen,
            blen == buf@.len(),
            v@ == buf@.subrange(p1 as int, p1 + i),
        decreases count - i,
    {
        v.push(buf[p1 + i]);
        proof {
            assert(v@ =~= buf@.subrange(p1 as int, p1 + i + 1));
        }
        i = i + 1;
    }
    Some((v, p1 + count))
}

/// The round trip of the framing: a frame parses back to its payload,
/// wherever it sits.
pub proof fn lemma_sd_frame(b: Seq<u8>, p: int, payload: Seq<u8>)
    requires
        0 <= p,
        payload.len() < 0x1_0000_0000_0000_0000,
        p + enc_frame(payload).len() <= b.len(),
        b.subrange(p, p + enc_frame(payload).len()) == enc_frame(payload),
    ensures
        sd_frame(b, p) == Some((payload, p + enc_frame(payload).len())),
{
    lemma_le_bytes_len(payload.len() as int, 8);
    lemma_subrange_split(b, p, le_bytes(payload.len() as int, 8), payload);
    assert(b.subrange(p, p + 8) =~= enc_u64(payload.len() as u64));
    lemma_sd_u64(b, p, payload.len() as u64);
}

/// The presence frame: a 4-byte little-endian length then the payload.
pub open spec fn enc_frame4(payload: Seq<u8>) -> Seq<u8> {
    le_bytes(payload.len() as int, 4) + payload
}

/// Spec-level parse of a presence frame.
pub open spec fn sd_frame4(b: Seq<u8>, p: int) -> Option<(Seq<u8>, int)> {
    match crate::codec::sd_u32(b, p) {
        Some((n, p1)) => if p1 + n <= b.len() {
            Some((b.subrange(p1, p1 + n), p1 + n))
        } else {
            None
        },
        None => None,
    }
}

/// Frame a presence payload for the wire.
pub fn encode_frame4(payload: &Vec<u8>) -> (r: Vec<u8>)
    requires
        payload@.len() < 0x1_0000_0000,
    ensures
        r@ == enc_frame4(payload@),
{
    let mut out: Vec<u8> = Vec::new();
    crate::codec::push_u32(&mut out, payload.len() as u32);
    let ghost mid = out@;
    let mut i: usize = 0;
    while i < payload.len()
        invariant
            i <= payload@.len(),
            out@ == mid + payload@.subrange(0, i as int),
        decreases payload@.len() - i,
    {
        out.push(payload[i]);
        proof {
            assert(out@ =~= mid + payload@.subrange(0, i + 1));
        }
        i = i + 1;
    }
    proof {
        assert(payload@.subrange(0, payload@.len() as int) =~= payload@);
        assert(out@ =~= enc_frame4(payload@));
    }
    out
}

/// Read one presence frame at `pos`.
pub fn decode_frame4(buf: &Vec<u8>, pos: usize) -> (r: Option<(Vec<u8>, usize)>)
    ensures
        match r {
            Some((v, np)) => sd_frame4(buf@, pos as int) == Some((v@, np as int)),
            None => sd_frame4(buf@, pos as int) is None,
        },
{
    let (n, p1) = match crate::codec::read_u32(buf, pos) {
        Some(x) => x,
        None => {
            return None;
        },
    };
    if n as u64 > (buf.len() - p1) as u64 {
        return None;
    }
    let count = n as usize;
    let blen = buf.len();
    let mut v: Vec<u8> = Vec::new();
    let mut i: usize = 0;
    while i < count
        invariant
            i <= count,
            p1 + count <= blen,
            blen == buf@.len(),
            v@ == buf@.subrange(p1 as int, p1 + i),
        decreases count - i,
    {
        v.push(buf[p1 + i]);
        proof {
            assert(v@ =~= buf@.subrange(p1 as int, p1 + i + 1));
        }
        i = i + 1;
    }
    Some((v, p1 + count))
}

// --- the per-connection engine ---

/// The per-connection progress cursor: whether anything was sent on this
/// connection yet, and through which local change it was sent.  Created
/// fresh on connect, discarded on disconnect.
pub struct SyncState {
    pub started: bool,
    pub last_sent: u64,
}

impl SyncState {
    /// A fresh cursor for a newly opened connection.
    pub fn new() -> (r: SyncState)
        ensures
            !r.started,
            r.last_sent == 0,
    {
        SyncState { started: false, last_sent: 0 }
    }
}

/// Generate the next outgoing sync message for one connection: the whole
/// current state when this connection has not seen it yet, nothing when
/// it is caught up.  A `None` stands for the zero-length "caught up"
/// sentinel frame.
pub fn generate_sync_message(doc: &Document, st: &mut SyncState) -> (r: Option<Vec<u8>>)
    ensures
        match r {
            Some(bytes) => {
                &&& (!old(st).started || old(st).last_sent < doc.change_count)
                &&& bytes@ == enc_state(
                    doc.state.shapes.entry_views(),
                    doc.state.order.entry_views(),
                    doc.state.groups.entry_views(),
                    doc.state.layers.entry_views(),
                    doc.state.layer_order.entry_views(),
                )
                &&& final(st).started
                &&& final(st).last_sent == doc.change_count
            },
            None => {
                &&& old(st).started && old(st).last_sent >= doc.change_count
                &&& *final(st) == *old(st)
            },
        },
{
    if !st.started || st.last_sent < doc.change_count {
        st.started = true;
        st.last_sent = doc.change_count;
        Some(encode_state(&doc.state))
    } else {
        None
    }
}

/// Feed one inbound sync message to the document: decode it and merge.
/// A malformed message is rejected without touching the document, so a
/// bad peer can never corrupt the store.
pub fn receive_sync_message(doc: &mut Document, bytes: &Vec<u8>) -> (r: Result<
    (),
    crate::document::StoreError,
>)
    requires
        old(doc).wf(),
    ensures
        final(doc).wf(),
        final(doc).actor == old(doc).actor,
        final(doc).doc_id == old(doc).doc_id,
        final(doc).undo_stack == old(doc).undo_stack,
        final(doc).redo_stack == old(doc).redo_stack,
        match r {
            Ok(()) => {
                &&& (match sd_state(bytes@, 0) {
                    Some(((se, oe, ge, le, loe), q)) => {
                        &&& q == bytes@.len()
                        &&& final(doc).state@ == merge_state(
                            old(doc).state@,
                            DocStateV {
                                shapes: map_of(se),
                                order: map_of(oe),
                                groups: map_of(ge),
                                layers: map_of(le),
                                layer_order: map_of(loe),
                            },
                        )
                    },
                    None => false,
                })
                &&& final(doc).dirty
            },
            Err(e) => {
                &&& e == crate::document::StoreError::Corrupt
                &&& *final(doc) == *old(doc)
                &&& (match sd_state(bytes@, 0) {
                    Some((es, q)) => q != bytes@.len(),
                    None => true,
                })
            },
        },
{
    match decode_state(bytes) {
        Some(remote) => {
            doc.merge(remote);
            Ok(())
        },
        None => Err(crate::document::StoreError::Corrupt),
    }
}

} // verus!
