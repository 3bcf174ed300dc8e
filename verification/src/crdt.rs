//! The conflict-free replicated substrate of the document store.
//!
//! The store keeps every replicated collection as a last-writer-wins map
//! from 128-bit keys to stamped registers.  A register holds an optional
//! value (`None` is a tombstone) together with the Lamport stamp of the
//! write that produced it; merging two replicas keeps, for every key, the
//! register with the larger stamp.  Stamps are totally ordered by
//! `(time, actor)`, so concurrent writes from different replicas resolve
//! the same way on both sides, and a write and a delete of the same key
//! resolve by stamp order (the later stamp wins, whichever kind it is).
//!
//! The lemmas at the end state the convergence algebra: merging is
//! idempotent and associative, and commutative for states whose common
//! stamps agree, which is exactly the shape of states that grew out of a
//! common history.

use vstd::prelude::*;

verus! {

/// A Lamport stamp: logical time, tie-broken by the writing replica's
/// actor id.
#[derive(Debug, Clone, Copy, PartialEq, Eq, Structural)]
pub struct Stamp {
    pub time: u64,
    pub actor: u64,
}

/// Strict total order on stamps.
pub open spec fn stamp_lt(a: Stamp, b: Stamp) -> bool {
    a.time < b.time || (a.time == b.time && a.actor < b.actor)
}

/// Decide the stamp order.
pub fn stamp_before(a: Stamp, b: Stamp) -> (r: bool)
    ensures
        r == stamp_lt(a, b),
{
    a.time < b.time || (a.time == b.time && a.actor < b.actor)
}

/// A stamped register: the value written last, or a tombstone.
#[derive(Debug, Clone)]
pub struct Reg<V> {
    pub stamp: Stamp,
    pub val: Option<V>,
}

/// Ghost mirror of a register over the value's view.
pub struct RegV<T> {
    pub stamp: Stamp,
    pub val: Option<T>,
}

/// View of a register.
pub open spec fn reg_view<V: View>(r: Reg<V>) -> RegV<V::V> {
    RegV {
        stamp: r.stamp,
        val: match r.val {
            Some(v) => Some(v@),
            None => None,
        },
    }
}

/// The register that survives when two replicas disagree on a key: the
/// one written later; on an equal stamp the left argument.
pub open spec fn join_reg<T>(a: RegV<T>, b: RegV<T>) -> RegV<T> {
    if stamp_lt(a.stamp, b.stamp) {
        b
    } else {
        a
    }
}

/// The map a sequence of keyed registers denotes (later entries win,
/// though a well-formed sequence never repeats a key).
pub open spec fn map_of<T>(s: Seq<(u128, RegV<T>)>) -> Map<u128, RegV<T>>
    decreases s.len(),
{
    if s.len() == 0 {
        Map::empty()
    } else {
        map_of(s.drop_last()).insert(s.last().0, s.last().1)
    }
}

/// No key occurs twice in a sequence of keyed registers.
pub open spec fn keys_unique<T>(s: Seq<(u128, RegV<T>)>) -> bool {
    forall|i: int, j: int| 0 <= i < j < s.len() ==> (#[trigger] s[i]).0 != (#[trigger] s[j]).0
}

/// Key-wise merge of two replica states.
pub open spec fn merge_map<T>(m1: Map<u128, RegV<T>>, m2: Map<u128, RegV<T>>) -> Map<
    u128,
    RegV<T>,
> {
    Map::new(
        |k: u128| m1.contains_key(k) || m2.contains_key(k),
        |k: u128|
            if m1.contains_key(k) && m2.contains_key(k) {
                join_reg(m1[k], m2[k])
            } else if m1.contains_key(k) {
                m1[k]
            } else {
                m2[k]
            },
    )
}

/// Two states agree wherever they carry the same stamp for the same key.
/// States that evolved from a common history always do: a stamp is issued
/// once, by one replica, for one write.
pub open spec fn compat<T>(m1: Map<u128, RegV<T>>, m2: Map<u128, RegV<T>>) -> bool {
    forall|k: u128|
        #![trigger m1[k], m2[k]]
        m1.contains_key(k) && m2.contains_key(k) && m1[k].stamp == m2[k].stamp ==> m1[k] == m2[k]
}

/// A key is in the denoted map exactly when some entry carries it.
pub proof fn lemma_map_of_index<T>(s: Seq<(u128, RegV<T>)>, k: u128)
    ensures
        map_of(s).contains_key(k) <==> exists|i: int| 0 <= i < s.len() && (#[trigger] s[i]).0 == k,
    decreases s.len(),
{
    if s.len() > 0 {
        lemma_map_of_index(s.drop_last(), k);
        if s.last().0 == k {
            assert(s[s.len() - 1].0 == k);
        } else if map_of(s).contains_key(k) {
            let i = choose|i: int| 0 <= i < s.drop_last().len() && (#[trigger] s.drop_last()[i]).0
                == k;
            assert(s[i].0 == k);
        } else {
            if exists|i: int| 0 <= i < s.len() && (#[trigger] s[i]).0 == k {
                let i = choose|i: int| 0 <= i < s.len() && (#[trigger] s[i]).0 == k;
                assert(s.drop_last()[i].0 == k);
            }
        }
    }
}

/// With unique keys, the denoted map sends an entry's key to its register.
pub proof fn lemma_map_of_at<T>(s: Seq<(u128, RegV<T>)>, i: int)
    requires
        keys_unique(s),
        0 <= i < s.len(),
    ensures
        map_of(s).contains_key(s[i].0),
        map_of(s)[s[i].0] == s[i].1,
    decreases s.len(),
{
    if i + 1 == s.len() {
    } else {
        lemma_map_of_at(s.drop_last(), i);
        assert(s.drop_last()[i] == s[i]);
        assert(s.last().0 != s[i].0);
    }
}

/// Updating an entry in place updates the denoted map at that key.
pub proof fn lemma_map_of_update<T>(s: Seq<(u128, RegV<T>)>, i: int, r: RegV<T>)
    requires
        keys_unique(s),
        0 <= i < s.len(),
    ensures
        map_of(s.update(i, (s[i].0, r))) == map_of(s).insert(s[i].0, r),
    decreases s.len(),
{
    let k = s[i].0;
    let t = s.update(i, (k, r));
    if i + 1 == s.len() {
        assert(t.drop_last() =~= s.drop_last());
        assert(t.last() == (k, r));
        assert(map_of(t) =~= map_of(s).insert(k, r));
    } else {
        lemma_map_of_update(s.drop_last(), i, r);
        assert(s.drop_last().update(i, (k, r)) =~= t.drop_last());
        assert(s.drop_last()[i] == s[i]);
        assert(t.last() == s.last());
        assert(s.last().0 != k);
        assert(map_of(t) =~= map_of(s).insert(k, r));
    }
}

/// Merging one more entry of the right-hand state equals one key-wise
/// join step on the partial merge.
pub proof fn lemma_merge_step<T>(orig: Map<u128, RegV<T>>, all: Seq<(u128, RegV<T>)>, d: int)
    requires
        keys_unique(all),
        0 <= d < all.len(),
    ensures
        merge_map(orig, map_of(all.subrange(0, d + 1))) == ({
            let pre = merge_map(orig, map_of(all.subrange(0, d)));
            let k = all[d].0;
            let r = all[d].1;
            if pre.contains_key(k) {
                pre.insert(k, join_reg(pre[k], r))
            } else {
                pre.insert(k, r)
            }
        }),
{
    let prefix = all.subrange(0, d);
    let ext = all.subrange(0, d + 1);
    let k = all[d].0;
    let r = all[d].1;
    assert(ext.drop_last() =~= prefix);
    assert(ext.last() == (k, r));
    assert(map_of(ext) == map_of(prefix).insert(k, r));
    lemma_map_of_index(prefix, k);
    assert(!map_of(prefix).contains_key(k)) by {
        if map_of(prefix).contains_key(k) {
            let i = choose|i: int| 0 <= i < prefix.len() && (#[trigger] prefix[i]).0 == k;
            assert(all[i].0 == all[d].0);
        }
    }
    let pre = merge_map(orig, map_of(prefix));
    if pre.contains_key(k) {
        assert(orig.contains_key(k));
        assert(pre[k] == orig[k]);
        assert(merge_map(orig, map_of(ext)) =~= pre.insert(k, join_reg(pre[k], r)));
    } else {
        assert(merge_map(orig, map_of(ext)) =~= pre.insert(k, r));
    }
}

/// A last-writer-wins map from 128-bit keys to stamped registers.
pub struct LwwMap<V> {
    pub entries: Vec<(u128, Reg<V>)>,
}

impl<V: View> View for LwwMap<V> {
    type V = Map<u128, RegV<V::V>>;

    open spec fn view(&self) -> Map<u128, RegV<V::V>> {
        map_of(self.entry_views())
    }
}

impl<V: View> LwwMap<V> {
    /// The sequence of keyed register views, in storage order.
    pub open spec fn entry_views(&self) -> Seq<(u128, RegV<V::V>)> {
        self.entries@.map_values(|e: (u128, Reg<V>)| (e.0, reg_view(e.1)))
    }

    /// Well-formed: no key occurs twice.
    pub open spec fn wf(&self) -> bool {
        keys_unique(self.entry_views())
    }

    pub fn new() -> (r: Self)
        ensures
            r.wf(),
            r@ == Map::<u128, RegV<V::V>>::empty(),
            r.entries@.len() == 0,
    {
        let r = LwwMap { entries: Vec::new() };
        proof {
            assert(r.entry_views() =~= Seq::<(u128, RegV<V::V>)>::empty());
        }
        r
    }

    /// Index of a key among the entries, if present.
    fn find(&self, key: u128) -> (r: Option<usize>)
        ensures
            match r {
                Some(i) => i < self.entries@.len() && self.entries@[i as int].0 == key,
                None => forall|i: int|
                    0 <= i < self.entries@.len() ==> (#[trigger] self.entries@[i]).0 != key,
            },
    {
        let mut i: usize = 0;
        while i < self.entries.len()
            invariant
                i <= self.entries@.len(),
                forall|j: int| 0 <= j < i ==> (#[trigger] self.entries@[j]).0 != key,
            decreases self.entries@.len() - i,
        {
            if self.entries[i].0 == key {
                return Some(i);
            }
            i = i + 1;
        }
        None
    }

    /// Look a key up.
    pub fn get(&self, key: u128) -> (r: Option<&Reg<V>>)
        requires
            self.wf(),
        ensures
            match r {
                Some(reg) => self@.contains_key(key) && self@[key] == reg_view(*reg),
                None => !self@.contains_key(key),
            },
    {
        proof {
            lemma_map_of_index(self.entry_views(), key);
        }
        match self.find(key) {
            Some(i) => {
                proof {
                    assert(self.entry_views()[i as int].0 == key);
                    lemma_map_of_at(self.entry_views(), i as int);
                }
                Some(&self.entries[i].1)
            },
            None => {
                proof {
                    assert forall|i: int| 0 <= i < self.entry_views().len() implies (
                    #[trigger] self.entry_views()[i]).0 != key by {
                        assert(self.entries@[i].0 != key);
                    }
                }
                None
            },
        }
    }

    /// Write a register under a key, replacing whatever was there.
    pub fn put(&mut self, key: u128, reg: Reg<V>)
        requires
            old(self).wf(),
        ensures
            final(self).wf(),
            final(self)@ == old(self)@.insert(key, reg_view(reg)),
    {
        let ghost pre = self.entry_views();
        match self.find(key) {
            Some(i) => {
                self.entries.set(i, (key, reg));
                proof {
                    assert(self.entry_views() =~= pre.update(i as int, (key, reg_view(reg))));
                    lemma_map_of_update(pre, i as int, reg_view(reg));
                }
            },
            None => {
                self.entries.push((key, reg));
                proof {
                    assert(self.entry_views() =~= pre.push((key, reg_view(reg))));
                    assert(self.entry_views().drop_last() =~= pre);
                }
            },
        }
    }

    /// Merge another replica's state into this one, keeping the later
    /// write of every key.
    pub fn merge_from(&mut self, other: LwwMap<V>)
        requires
            old(self).wf(),
            other.wf(),
        ensures
            final(self).wf(),
            final(self)@ == merge_map(old(self)@, other@),
    {
        let ghost orig = self@;
        let ghost all = other.entry_views();
        let mut rest = other;
        let ghost mut done: int = 0;
        proof {
            assert(all.subrange(0, 0) =~= Seq::<(u128, RegV<V::V>)>::empty());
            assert(merge_map(orig, map_of(all.subrange(0, 0))) =~= orig);
        }
        while rest.entries.len() > 0
            invariant
                self.wf(),
                0 <= done <= all.len(),
                rest.entry_views() =~= all.subrange(done, all.len() as int),
                self@ == merge_map(orig, map_of(all.subrange(0, done))),
                keys_unique(all),
            decreases rest.entries@.len(),
        {
            let ghost pre = self@;
            let ghost rest_pre = rest.entry_views();
            let (key, reg) = rest.entries.remove(0);
            proof {
                assert(rest.entry_views() =~= rest_pre.subrange(1, rest_pre.len() as int));
                assert(rest.entry_views() =~= all.subrange(done + 1, all.len() as int));
                assert(rest_pre[0] == all[done]);
                assert(all[done] == (key, reg_view(reg)));
            }
            let newer: bool = match self.get(key) {
                Some(mine) => stamp_before(mine.stamp, reg.stamp),
                None => true,
            };
            if newer {
                self.put(key, reg);
            }
            proof {
                lemma_merge_step(orig, all, done);
                if pre.contains_key(key) && !stamp_lt(pre[key].stamp, reg_view(reg).stamp) {
                    assert(join_reg(pre[key], reg_view(reg)) == pre[key]);
                    assert(pre.insert(key, pre[key]) =~= pre);
                }
                assert(self@ == merge_map(orig, map_of(all.subrange(0, done + 1))));
                done = done + 1;
            }
        }
        proof {
            assert(all.subrange(0, all.len() as int) =~= all);
        }
    }
}

/// Merging a state with itself changes nothing: every key keeps its own
/// register.
pub proof fn lemma_merge_idempotent<T>(m: Map<u128, RegV<T>>)
    ensures
        merge_map(m, m) == m,
{
    assert(merge_map(m, m) =~= m);
}

/// Merging is commutative for states whose common stamps agree, so two
/// replicas that exchange their states end in the same document no matter
/// who merges first.
pub proof fn lemma_merge_commutes<T>(m1: Map<u128, RegV<T>>, m2: Map<u128, RegV<T>>)
    requires
        compat(m1, m2),
    ensures
        merge_map(m1, m2) == merge_map(m2, m1),
{
    assert forall|k: u128| #[trigger]
        merge_map(m1, m2).contains_key(k) implies merge_map(m1, m2)[k] == merge_map(m2, m1)[k] by {
        if m1.contains_key(k) && m2.contains_key(k) {
            if m1[k].stamp == m2[k].stamp {
                assert(m1[k] == m2[k]);
            }
        }
    }
    assert(merge_map(m1, m2) =~= merge_map(m2, m1));
}

/// Merging is associative: relaying states through several peers resolves
/// every key the same way.
pub proof fn lemma_merge_assoc<T>(
    m1: Map<u128, RegV<T>>,
    m2: Map<u128, RegV<T>>,
    m3: Map<u128, RegV<T>>,
)
    ensures
        merge_map(merge_map(m1, m2), m3) == merge_map(m1, merge_map(m2, m3)),
{
    assert(merge_map(merge_map(m1, m2), m3) =~= merge_map(m1, merge_map(m2, m3)));
}

/// Applying an already-merged state again changes nothing.
pub proof fn lemma_merge_reapply<T>(m1: Map<u128, RegV<T>>, m2: Map<u128, RegV<T>>)
    ensures
        merge_map(merge_map(m1, m2), m2) == merge_map(m1, m2),
{
    lemma_merge_assoc(m1, m2, m2);
    lemma_merge_idempotent(m2);
}

} // verus!
