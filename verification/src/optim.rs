use crate::checkpoint::{OptimizerSlot, SlotView};
use crate::model::zeros;
use vstd::prelude::*;

verus! {

/// The mathematical content of a list of slots.
pub open spec fn slot_views(s: Seq<OptimizerSlot>) -> Seq<SlotView> {
    s.map_values(|x: OptimizerSlot| x@)
}

/// Keys strictly increase from slot to slot (so no key occurs twice).
pub open spec fn keys_sorted(t: Seq<SlotView>) -> bool {
    forall|i: int, j: int| 0 <= i < j < t.len() ==> #[trigger] t[i].key < #[trigger] t[j].key
}

/// Whether some slot has this key.
pub open spec fn has_key(t: Seq<SlotView>, key: usize) -> bool {
    exists|i: int| 0 <= i < t.len() && #[trigger] t[i].key == key
}

/// Where a slot with `key` belongs in a key-sorted table: the number of slots with
/// smaller keys.
pub open spec fn lower(t: Seq<SlotView>, key: usize) -> nat
    decreases t.len(),
{
    if t.len() == 0 {
        0
    } else if t.last().key < key {
        t.len()
    } else {
        lower(t.drop_last(), key)
    }
}

/// `x` stored in a key-sorted table: it replaces the slot with its key, or goes in
/// at its place in key order.
pub open spec fn upsert(t: Seq<SlotView>, x: SlotView) -> Seq<SlotView> {
    let p = lower(t, x.key) as int;
    if p < t.len() && t[p].key == x.key {
        t.update(p, x)
    } else {
        t.insert(p, x)
    }
}

/// The table that results from storing the slots of `s` one after the other into an
/// empty one: a later slot replaces an earlier one with the same key.
pub open spec fn spec_import(s: Seq<SlotView>) -> Seq<SlotView>
    decreases s.len(),
{
    if s.len() == 0 {
        Seq::empty()
    } else {
        upsert(spec_import(s.drop_last()), s.last())
    }
}

/// Moment elements held by a table (first and second moments together).
pub open spec fn moment_elems(t: Seq<SlotView>) -> int
    decreases t.len(),
{
    if t.len() == 0 {
        0
    } else {
        moment_elems(t.drop_last()) + t.last().m.len() + t.last().v.len()
    }
}

/// In a key-sorted table the slots before `lower` have smaller keys and the others
/// do not.
pub proof fn lemma_lower(t: Seq<SlotView>, key: usize)
    requires
        keys_sorted(t),
    ensures
        lower(t, key) <= t.len(),
        forall|i: int| 0 <= i < lower(t, key) ==> #[trigger] t[i].key < key,
        forall|i: int| lower(t, key) <= i < t.len() ==> #[trigger] t[i].key >= key,
    decreases t.len(),
{
    if t.len() > 0 {
        let d = t.drop_last();
        assert(keys_sorted(d)) by {
            assert forall|i: int, j: int| 0 <= i < j < d.len() implies #[trigger] d[i].key < #[trigger] d[j].key by {
                assert(t[i].key < t[j].key);
            }
        }
        lemma_lower(d, key);
        if t.last().key < key {
            assert forall|i: int| 0 <= i < t.len() implies #[trigger] t[i].key < key by {
                if i < t.len() - 1 {
                    assert(t[i].key < t[t.len() - 1].key);
                }
            }
        } else {
            assert forall|i: int| 0 <= i < lower(t, key) implies #[trigger] t[i].key < key by {
                assert(d[i].key < key);
            }
            assert forall|i: int| lower(t, key) <= i < t.len() implies #[trigger] t[i].key >= key by {
                if i < t.len() - 1 {
                    assert(d[i].key >= key);
                }
            }
        }
    }
}

/// A key is in a key-sorted table exactly when the slot at its place has it.
pub proof fn lemma_has_key(t: Seq<SlotView>, key: usize)
    requires
        keys_sorted(t),
    ensures
        has_key(t, key) == (lower(t, key) < t.len() && t[lower(t, key) as int].key == key),
{
    lemma_lower(t, key);
    let p = lower(t, key) as int;
    if has_key(t, key) {
        let i = choose|i: int| 0 <= i < t.len() && #[trigger] t[i].key == key;
        if i > p {
            assert(t[p].key < t[i].key);
        }
    }
}

/// Storing a slot keeps a table key-sorted.
pub proof fn lemma_upsert_sorted(t: Seq<SlotView>, x: SlotView)
    requires
        keys_sorted(t),
    ensures
        keys_sorted(upsert(t, x)),
{
    lemma_lower(t, x.key);
    let p = lower(t, x.key) as int;
    let u = upsert(t, x);
    if p < t.len() && t[p].key == x.key {
        assert forall|i: int, j: int| 0 <= i < j < u.len() implies #[trigger] u[i].key < #[trigger] u[j].key by {
            assert(t[i].key < t[j].key);
        }
    } else {
        assert forall|i: int, j: int| 0 <= i < j < u.len() implies #[trigger] u[i].key < #[trigger] u[j].key by {
            if j < p {
                assert(t[i].key < t[j].key);
            } else if j == p {
                assert(u[j] == x);
            } else if i < p {
                assert(u[j] == t[j - 1]);
            } else if i == p {
                assert(u[j] == t[j - 1]);
                assert(t[j - 1].key >= x.key);
            } else {
                assert(t[i - 1].key < t[j - 1].key);
            }
        }
    }
}

/// The slot of `key` in a key-sorted table, if it has one.
pub open spec fn lookup(t: Seq<SlotView>, key: usize) -> Option<SlotView> {
    let p = lower(t, key) as int;
    if p < t.len() && t[p].key == key {
        Some(t[p])
    } else {
        None
    }
}

/// The last slot of `s` with `key`, if any.
pub open spec fn last_with(s: Seq<SlotView>, key: usize) -> Option<SlotView>
    decreases s.len(),
{
    if s.len() == 0 {
        None
    } else if s.last().key == key {
        Some(s.last())
    } else {
        last_with(s.drop_last(), key)
    }
}

/// `lower` is the one place that splits a key-sorted table into smaller keys and
/// the rest.
pub proof fn lemma_lower_unique(t: Seq<SlotView>, key: usize, p: int)
    requires
        keys_sorted(t),
        0 <= p <= t.len(),
        forall|i: int| 0 <= i < p ==> #[trigger] t[i].key < key,
        forall|i: int| p <= i < t.len() ==> #[trigger] t[i].key >= key,
    ensures
        lower(t, key) == p,
{
    lemma_lower(t, key);
    let l = lower(t, key) as int;
    if l < p {
        assert(t[l].key < key);
    }
    if p < l {
        assert(t[p].key < key);
    }
}

/// Storing `x` changes what a table holds for `x.key` alone.
pub proof fn lemma_upsert_lookup(t: Seq<SlotView>, x: SlotView, key: usize)
    requires
        keys_sorted(t),
    ensures
        lookup(upsert(t, x), key) == if key == x.key {
            Some(x)
        } else {
            lookup(t, key)
        },
{
    lemma_lower(t, x.key);
    lemma_lower(t, key);
    lemma_upsert_sorted(t, x);
    let p0 = lower(t, x.key) as int;
    let q = lower(t, key) as int;
    let u = upsert(t, x);
    if p0 < t.len() && t[p0].key == x.key {
        lemma_lower_unique(u, key, q);
        if q == p0 {
            assert(u[q] == x);
        }
    } else {
        if key < x.key {
            assert(q <= p0) by {
                if q > p0 {
                    assert(t[p0].key < key);
                }
            }
            assert forall|i: int| q <= i < u.len() implies #[trigger] u[i].key >= key by {
                if i > p0 {
                    assert(u[i] == t[i - 1]);
                }
            }
            lemma_lower_unique(u, key, q);
            if q < p0 {
                assert(u[q] == t[q]);
            } else {
                assert(u[q] == x);
                if q < t.len() {
                    assert(t[q].key >= x.key);
                }
            }
        } else if key == x.key {
            lemma_lower_unique(u, key, p0);
        } else {
            assert(q >= p0) by {
                if q < p0 {
                    assert(t[q].key >= key);
                    assert(t[q].key < x.key);
                }
            }
            assert forall|i: int| 0 <= i < q + 1 implies #[trigger] u[i].key < key by {
                if i < p0 {
                    assert(u[i] == t[i]);
                } else if i > p0 {
                    assert(u[i] == t[i - 1]);
                }
            }
            assert forall|i: int| q + 1 <= i < u.len() implies #[trigger] u[i].key >= key by {
                assert(u[i] == t[i - 1]);
            }
            lemma_lower_unique(u, key, q + 1);
            if q < t.len() {
                assert(u[q + 1] == t[q]);
            }
        }
    }
}

/// Storing slots one after the other leaves, for each key, the last slot stored
/// with it: what a key-to-moments map does.
pub proof fn lemma_import_last_wins(s: Seq<SlotView>, key: usize)
    ensures
        lookup(spec_import(s), key) == last_with(s, key),
    decreases s.len(),
{
    if s.len() > 0 {
        lemma_import_last_wins(s.drop_last(), key);
        lemma_import_sorted(s.drop_last());
        lemma_upsert_lookup(spec_import(s.drop_last()), s.last(), key);
    }
}

/// Storing the slots of a key-sorted table, in order, into an empty one rebuilds it:
/// importing what was exported gives the same table back.
pub proof fn lemma_import_export(t: Seq<SlotView>)
    requires
        keys_sorted(t),
    ensures
        spec_import(t) == t,
    decreases t.len(),
{
    if t.len() > 0 {
        let d = t.drop_last();
        assert(keys_sorted(d)) by {
            assert forall|i: int, j: int| 0 <= i < j < d.len() implies #[trigger] d[i].key < #[trigger] d[j].key by {
                assert(t[i].key < t[j].key);
            }
        }
        lemma_import_export(d);
        assert forall|i: int| 0 <= i < d.len() implies #[trigger] d[i].key < t.last().key by {
            assert(t[i].key < t[t.len() - 1].key);
        }
        lemma_lower_unique(d, t.last().key, d.len() as int);
        assert(d.insert(d.len() as int, t.last()) =~= t);
    }
}

/// A table built by storing slots one after the other is key-sorted.
pub proof fn lemma_import_sorted(s: Seq<SlotView>)
    ensures
        keys_sorted(spec_import(s)),
    decreases s.len(),
{
    if s.len() > 0 {
        lemma_import_sorted(s.drop_last());
        lemma_upsert_sorted(spec_import(s.drop_last()), s.last());
    }
}


/// `n` zero bit patterns, allocated.
fn zero_vec(n: usize) -> (r: Vec<u32>)
    ensures
        r@ == zeros(n as int),
{
    let r = vec![crate::tensor::ZERO_BITS; n];
    assert(r@ == zeros(n as int));
    r
}

/// An element-by-element copy of `v`.
fn copy_vec(v: &Vec<u32>) -> (r: Vec<u32>)
    ensures
        r@ == v@,
{
    let mut r: Vec<u32> = Vec::with_capacity(v.len());
    let mut i: usize = 0;
    while i < v.len()
        invariant
            i <= v@.len(),
            r@ == v@.take(i as int),
        decreases v@.len() - i,
    {
        r.push(v[i]);
        proof {
            assert(v@.take(i + 1) == v@.take(i as int).push(v@[i as int]));
        }
        i = i + 1;
    }
    assert(v@.take(v@.len() as int) == v@);
    r
}

/// The per-parameter moment store of an adaptive optimizer: one slot per parameter
/// key, kept in increasing key order.
pub struct MomentTable {
    slots: Vec<OptimizerSlot>,
}

impl View for MomentTable {
    type V = Seq<SlotView>;

    closed spec fn view(&self) -> Seq<SlotView> {
        slot_views(self.slots@)
    }
}

impl MomentTable {
    /// Well-formed: keys in strictly increasing order.
    pub open spec fn wf(&self) -> bool {
        keys_sorted(self@)
    }

    pub fn new() -> (t: Self)
        ensures
            t.wf(),
            t@ == Seq::<SlotView>::empty(),
    {
        let t = MomentTable { slots: Vec::new() };
        assert(t@ =~= Seq::<SlotView>::empty());
        t
    }

    /// Number of slots.
    pub fn len(&self) -> (n: usize)
        ensures
            n == self@.len(),
    {
        self.slots.len()
    }

    /// The place of `key`: the number of slots with smaller keys.
    fn position(&self, key: usize) -> (p: usize)
        requires
            self.wf(),
        ensures
            p == lower(self@, key),
    {
        proof {
            lemma_lower(self@, key);
        }
        let mut i: usize = 0;
        while i < self.slots.len() && self.slots[i].key < key
            invariant
                i <= self.slots@.len(),
                self.wf(),
                forall|j: int| 0 <= j < i ==> #[trigger] self@[j].key < key,
                lower(self@, key) <= self@.len(),
                forall|j: int| lower(self@, key) <= j < self@.len() ==> #[trigger] self@[j].key >= key,
            decreases self.slots@.len() - i,
        {
            assert(self@[i as int].key < key);
            i = i + 1;
        }
        proof {
            let l = lower(self@, key) as int;
            if i < l {
                assert(self@[i as int].key < key);
            }
            if (i as int) > l {
                assert(self@[l].key < key);
            }
        }
        i
    }

    /// Whether some slot has `key`.
    pub fn contains(&self, key: usize) -> (b: bool)
        requires
            self.wf(),
        ensures
            b == has_key(self@, key),
    {
        proof {
            lemma_has_key(self@, key);
        }
        let p = self.position(key);
        p < self.slots.len() && self.slots[p].key == key
    }

    /// Gives `key` a slot of `n` zero moments unless it has one already.
    pub fn ensure(&mut self, key: usize, n: usize)
        requires
            old(self).wf(),
        ensures
            final(self).wf(),
            final(self)@ == if has_key(old(self)@, key) {
                old(self)@
            } else {
                upsert(old(self)@, SlotView { key, m: zeros(n as int), v: zeros(n as int) })
            },
    {
        proof {
            lemma_has_key(self@, key);
            lemma_lower(self@, key);
        }
        let p = self.position(key);
        if p < self.slots.len() && self.slots[p].key == key {
            return;
        }
        let slot = OptimizerSlot { key, m: zero_vec(n), v: zero_vec(n) };
        self.slots.insert(p, slot);
        proof {
            let x = SlotView { key, m: zeros(n as int), v: zeros(n as int) };
            assert(self@ =~= upsert(old(self)@, x));
            lemma_upsert_sorted(old(self)@, x);
        }
    }

    /// Swaps `m` and `v` into the slot of `key` and hands back the moments it held;
    /// `None`, and nothing changed, when no slot has the key.
    pub fn replace_moments(&mut self, key: usize, m: Vec<u32>, v: Vec<u32>) -> (r: Option<(Vec<u32>, Vec<u32>)>)
        requires
            old(self).wf(),
        ensures
            final(self).wf(),
            has_key(old(self)@, key) ==> {
                let p = lower(old(self)@, key) as int;
                &&& r matches Some((om, ov)) && om@ == old(self)@[p].m && ov@ == old(self)@[p].v
                &&& final(self)@ == old(self)@.update(p, SlotView { key, m: m@, v: v@ })
            },
            !has_key(old(self)@, key) ==> r is None && final(self)@ == old(self)@,
    {
        proof {
            lemma_has_key(self@, key);
        }
        let p = self.position(key);
        if !(p < self.slots.len() && self.slots[p].key == key) {
            return None;
        }
        let mut slot = self.slots.remove(p);
        let mut m2 = m;
        let mut v2 = v;
        std::mem::swap(&mut slot.m, &mut m2);
        std::mem::swap(&mut slot.v, &mut v2);
        self.slots.insert(p, slot);
        proof {
            assert(self@ =~= old(self)@.update(p as int, SlotView { key, m: m@, v: v@ }));
            assert forall|i: int, j: int| 0 <= i < j < self@.len() implies #[trigger] self@[i].key < #[trigger] self@[j].key by {
                assert(old(self)@[i].key < old(self)@[j].key);
            }
        }
        Some((m2, v2))
    }

    /// Storage held by the moments in bytes (four per element).
    pub fn state_bytes(&self) -> (b: u64)
        requires
            4 * moment_elems(self@) <= u64::MAX,
        ensures
            b == 4 * moment_elems(self@),
    {
        let mut b: u64 = 0;
        let mut i: usize = 0;
        while i < self.slots.len()
            invariant
                i <= self@.len(),
                4 * moment_elems(self@) <= u64::MAX,
                b == 4 * moment_elems(self@.take(i as int)),
            decreases self@.len() - i,
        {
            proof {
                assert(self@.take(i + 1).drop_last() == self@.take(i as int));
                lemma_moment_elems_prefix(self@, i + 1);
            }
            let s = &self.slots[i];
            b = b + (s.m.len() as u64) * 4 + (s.v.len() as u64) * 4;
            i = i + 1;
        }
        assert(self@.take(self@.len() as int) == self@);
        b
    }

    /// Whether the moments' storage in bytes fits in a `u64` (what `state_bytes`
    /// needs).
    pub fn state_bytes_fit(&self) -> (b: bool)
        ensures
            b == (4 * moment_elems(self@) <= u64::MAX),
    {
        let limit: u64 = 0xffff_ffff_ffff_ffffu64 / 4;
        let mut total: u64 = 0;
        let mut i: usize = 0;
        while i < self.slots.len()
            invariant
                i <= self@.len(),
                limit == u64::MAX / 4,
                total == moment_elems(self@.take(i as int)),
                total <= limit,
            decreases self@.len() - i,
        {
            proof {
                assert(self@.take(i + 1).drop_last() == self@.take(i as int));
                lemma_moment_elems_prefix(self@, i + 1);
            }
            let s = &self.slots[i];
            let a = s.m.len() as u64;
            let c = s.v.len() as u64;
            if a > limit - total {
                return false;
            }
            if c > limit - total - a {
                return false;
            }
            total = total + a + c;
            i = i + 1;
        }
        assert(self@.take(self@.len() as int) == self@);
        true
    }

    /// A copy of every slot, in increasing key order.
    pub fn export_slots(&self) -> (r: Vec<OptimizerSlot>)
        ensures
            slot_views(r@) == self@,
    {
        let mut r: Vec<OptimizerSlot> = Vec::new();
        let mut i: usize = 0;
        while i < self.slots.len()
            invariant
                i <= self@.len(),
                slot_views(r@) == self@.take(i as int),
            decreases self@.len() - i,
        {
            let s = &self.slots[i];
            let c = OptimizerSlot { key: s.key, m: copy_vec(&s.m), v: copy_vec(&s.v) };
            assert(c@ == self@[i as int]);
            let ghost before = r@;
            r.push(c);
            proof {
                assert(r@ == before.push(c));
                assert(self@.take(i + 1) == self@.take(i as int).push(self@[i as int]));
                assert(slot_views(r@) =~= self@.take(i + 1));
            }
            i = i + 1;
        }
        assert(self@.take(self@.len() as int) =~= self@);
        r
    }

    /// Replaces the whole table by the slots of `slots`, stored one after the other
    /// (a later slot replaces an earlier one with the same key).
    pub fn import_slots(&mut self, slots: Vec<OptimizerSlot>)
        ensures
            final(self).wf(),
            final(self)@ == spec_import(slot_views(slots@)),
    {
        let ghost src = slot_views(slots@);
        self.slots = Vec::new();
        let mut rest = slots;
        let mut k: usize = 0;
        let n = rest.len();
        proof {
            assert(self@ =~= Seq::<SlotView>::empty());
            assert(src.take(0) =~= Seq::<SlotView>::empty());
        }
        while 0 < rest.len()
            invariant
                k + rest@.len() == n,
                n == src.len(),
                slot_views(rest@) == src.subrange(k as int, n as int),
                self.wf(),
                self@ == spec_import(src.take(k as int)),
            decreases rest@.len(),
        {
            let ghost r0 = rest@;
            assert(slot_views(r0)[0] == r0[0]@);
            assert(src.subrange(k as int, n as int)[0] == src[k as int]);
            let s = rest.remove(0);
            proof {
                assert(s == r0[0]);
                assert(s@ == src[k as int]);
                assert(rest@ == r0.remove(0));
                assert forall|i: int| 0 <= i < rest@.len() implies #[trigger] slot_views(rest@)[i]
                    == src.subrange(k + 1, n as int)[i] by {
                    assert(rest@[i] == r0[i + 1]);
                    assert(slot_views(r0)[i + 1] == r0[i + 1]@);
                    assert(src.subrange(k as int, n as int)[i + 1] == src[k + 1 + i]);
                }
                assert(slot_views(rest@) =~= src.subrange(k + 1, n as int));
            }
            self.upsert(s);
            proof {
                assert(src.take(k + 1).drop_last() =~= src.take(k as int));
                assert(src.take(k + 1).last() == src[k as int]);
            }
            k = k + 1;
        }
        assert(src.take(n as int) =~= src);
    }

    /// Stores `s`, replacing the slot with its key or inserting it in key order.
    fn upsert(&mut self, s: OptimizerSlot)
        requires
            old(self).wf(),
        ensures
            final(self).wf(),
            final(self)@ == upsert(old(self)@, s@),
    {
        proof {
            lemma_upsert_sorted(self@, s@);
            lemma_lower(self@, s.key);
        }
        let p = self.position(s.key);
        if p < self.slots.len() && self.slots[p].key == s.key {
            self.slots.set(p, s);
            assert(self@ =~= upsert(old(self)@, s@));
        } else {
            self.slots.insert(p, s);
            assert(self@ =~= upsert(old(self)@, s@));
        }
    }
}

/// The moments of the first `k` slots, then of the first `k - 1`: the step a
/// running sum takes.
pub proof fn lemma_moment_elems_prefix(t: Seq<SlotView>, k: int)
    requires
        0 < k <= t.len(),
    ensures
        moment_elems(t.take(k)) == moment_elems(t.take(k - 1)) + t[k - 1].m.len() + t[k - 1].v.len(),
        moment_elems(t.take(k)) <= moment_elems(t),
        0 <= moment_elems(t.take(k - 1)),
    decreases t.len() - k,
{
    assert(t.take(k).drop_last() =~= t.take(k - 1));
    lemma_moment_elems_nonneg(t.take(k - 1));
    if k < t.len() {
        lemma_moment_elems_prefix(t, k + 1);
    } else {
        assert(t.take(k) =~= t);
    }
}

pub proof fn lemma_moment_elems_nonneg(t: Seq<SlotView>)
    ensures
        0 <= moment_elems(t),
    decreases t.len(),
{
    if t.len() > 0 {
        lemma_moment_elems_nonneg(t.drop_last());
    }
}

} // verus!
