//! The chain of generations behind a linearly reclaimed cell.
//!
//! Every commit appends a generation to the chain; the newest one is current.
//! Readers pin the current generation and unpin it when they are done. A
//! generation is reclaimed only from the front of the chain: once it has been
//! superseded, nobody pins it, and every older generation is already gone.
use std::sync::Arc;
use vstd::prelude::*;

verus! {

/// The identifier that follows `id`; identifiers wrap around after `u64::MAX`.
pub open spec fn next_id(id: u64) -> u64 {
    if id == u64::MAX {
        0
    } else {
        (id + 1) as u64
    }
}

/// `id` advanced `k` times by `next_id`, for `k < 2^64`.
pub open spec fn id_after(id: u64, k: int) -> u64 {
    if id + k <= u64::MAX {
        (id + k) as u64
    } else {
        (id + k - 0x1_0000_0000_0000_0000) as u64
    }
}

/// A reader count that saturates: a generation pinned `u64::MAX` times at once
/// is never reclaimed.
pub open spec fn bump(n: u64) -> u64 {
    if n < u64::MAX {
        (n + 1) as u64
    } else {
        n
    }
}

/// What the chain records of one live generation.
pub struct GenRecord<T> {
    pub id: u64,
    pub value: T,
    pub readers: u64,
    /// The generation that superseded this one; `None` while it is current.
    pub next: Option<u64>,
}

/// A chain of live generations, oldest first: consecutive identifiers, each
/// one linked to its successor, the last one current.
pub open spec fn chain_wf<T>(s: Seq<GenRecord<T>>) -> bool {
    &&& s.len() >= 1
    &&& s.len() <= usize::MAX
    &&& forall|i: int|
        0 <= i < s.len() - 1 ==> #[trigger] s[i + 1].id == next_id(s[i].id) && s[i].next == Some(
            s[i + 1].id,
        )
    &&& s.last().next is None
}

/// How many generations at the front of `s` are due for reclamation: each of
/// them superseded, unpinned, and preceded only by generations that are due too.
pub open spec fn reclaimable<T>(s: Seq<GenRecord<T>>) -> nat
    decreases s.len(),
{
    if s.len() <= 1 || s[0].readers != 0 {
        0
    } else {
        1 + reclaimable(s.drop_first())
    }
}

/// `s` once every generation that is due has been reclaimed.
pub open spec fn reclaim<T>(s: Seq<GenRecord<T>>) -> Seq<GenRecord<T>> {
    s.skip(reclaimable(s) as int)
}

/// `s` with one more reader on the current generation.
pub open spec fn pin_current<T>(s: Seq<GenRecord<T>>) -> Seq<GenRecord<T>> {
    let c = s.last();
    s.update(
        s.len() - 1,
        GenRecord { id: c.id, value: c.value, readers: bump(c.readers), next: c.next },
    )
}

/// `s` with one reader fewer on generation `id`. A saturated count stays.
pub open spec fn unpin_gen<T>(s: Seq<GenRecord<T>>, id: u64) -> Seq<GenRecord<T>> {
    s.map_values(
        |g: GenRecord<T>|
            if g.id == id && 0 < g.readers < u64::MAX {
                GenRecord { id: g.id, value: g.value, readers: (g.readers - 1) as u64, next: g.next }
            } else {
                g
            },
    )
}

/// `s` with `value` published as a new current generation, linked from the
/// generation it supersedes.
pub open spec fn append_gen<T>(s: Seq<GenRecord<T>>, value: T) -> Seq<GenRecord<T>> {
    let c = s.last();
    let nid = next_id(c.id);
    s.update(
        s.len() - 1,
        GenRecord { id: c.id, value: c.value, readers: c.readers, next: Some(nid) },
    ).push(GenRecord { id: nid, value, readers: 0, next: None })
}

/// `s` after publishing each of `values` in turn.
pub open spec fn publish_all<T>(s: Seq<GenRecord<T>>, values: Seq<T>) -> Seq<GenRecord<T>>
    decreases values.len(),
{
    if values.len() == 0 {
        s
    } else {
        publish_all(reclaim(append_gen(s, values[0])), values.drop_first())
    }
}

/// Reclamation takes generations off the front of the chain only, each of
/// them superseded and unpinned, and stops at the first one that is pinned or
/// current: no generation goes before an older one, none while a reader holds
/// it, and the current one never.
pub proof fn lemma_reclaim_in_order<T>(s: Seq<GenRecord<T>>)
    requires
        s.len() >= 1,
    ensures
        reclaimable(s) < s.len(),
        reclaim(s) == s.skip(reclaimable(s) as int),
        forall|i: int| 0 <= i < reclaimable(s) ==> (#[trigger] s[i]).readers == 0,
        reclaimable(s) < s.len() - 1 ==> s[reclaimable(s) as int].readers > 0,
        reclaim(s).last() == s.last(),
    decreases s.len(),
{
    if s.len() > 1 && s[0].readers == 0 {
        let t = s.drop_first();
        lemma_reclaim_in_order(t);
        assert forall|i: int| 0 <= i < reclaimable(s) implies (#[trigger] s[i]).readers == 0 by {
            if i > 0 {
                assert(s[i] == t[i - 1]);
            }
        }
        assert(s[reclaimable(s) as int] == t[reclaimable(t) as int]);
    }
}

/// A snapshot is stable: whatever values are committed after a reader pins a
/// generation, that generation stays in the chain with its value and its
/// readers.
pub proof fn lemma_pinned_stays<T>(s: Seq<GenRecord<T>>, i: int, values: Seq<T>)
    requires
        s.len() >= 1,
        0 <= i < s.len(),
        s[i].readers > 0,
    ensures
        exists|j: int|
            0 <= j < publish_all(s, values).len() && (#[trigger] publish_all(s, values)[j]).id
                == s[i].id && publish_all(s, values)[j].value == s[i].value && publish_all(
                s,
                values,
            )[j].readers == s[i].readers,
    decreases values.len(),
{
    if values.len() == 0 {
        assert(publish_all(s, values)[i] == s[i]);
    } else {
        let a = append_gen(s, values[0]);
        lemma_reclaim_in_order(a);
        let k = reclaimable(a) as int;
        assert(a[i].readers > 0);
        assert(i >= k);
        let t = reclaim(a);
        assert(t[i - k] == a[i]);
        assert(a[i].id == s[i].id && a[i].value == s[i].value && a[i].readers == s[i].readers);
        lemma_pinned_stays(t, i - k, values.drop_first());
        assert(publish_all(s, values) == publish_all(t, values.drop_first()));
    }
}

/// A commit is read back: the generation it publishes is current, and a
/// reader that pins it now observes exactly the committed value.
pub proof fn lemma_commit_then_read<T>(s: Seq<GenRecord<T>>, value: T)
    requires
        s.len() >= 1,
    ensures
        reclaim(append_gen(s, value)).last().value == value,
        pin_current(reclaim(append_gen(s, value))).last().value == value,
        reclaim(append_gen(s, value)).last().readers == 0,
{
    lemma_reclaim_in_order(append_gen(s, value));
}

/// Readers finishing never change what a new reader observes: releasing any
/// generation keeps the current one and its value.
pub proof fn lemma_release_keeps_current<T>(s: Seq<GenRecord<T>>, id: u64)
    requires
        s.len() >= 1,
    ensures
        reclaim(unpin_gen(s, id)).last().value == s.last().value,
        reclaim(unpin_gen(s, id)).last().id == s.last().id,
{
    lemma_reclaim_in_order(unpin_gen(s, id));
}

/// Closing a reader of a settled chain, one with nothing due: if some
/// generation as old as the one it pinned, or older, is still pinned, nothing
/// is reclaimed; otherwise exactly the generations from the oldest up to the
/// first that is pinned or current go, oldest first, and that one stays.
pub proof fn lemma_release_in_order<T>(s: Seq<GenRecord<T>>, k: int)
    requires
        chain_wf(s),
        reclaimable(s) == 0,
        0 <= k < s.len(),
        0 < s[k].readers < u64::MAX,
    ensures
        unpin_gen(s, s[k].id) == s.update(
            k,
            GenRecord { id: s[k].id, value: s[k].value, readers: (s[k].readers - 1) as u64, next: s[k].next },
        ),
        (exists|j: int| 0 <= j <= k && (#[trigger] unpin_gen(s, s[k].id)[j]).readers > 0)
            ==> reclaim(unpin_gen(s, s[k].id)) == unpin_gen(s, s[k].id),
        forall|i: int|
            0 <= i < reclaimable(unpin_gen(s, s[k].id)) ==> (#[trigger] unpin_gen(s, s[k].id)[i]).readers == 0,
        reclaimable(unpin_gen(s, s[k].id)) < s.len() - 1 ==> unpin_gen(s, s[k].id)[reclaimable(
            unpin_gen(s, s[k].id),
        ) as int].readers > 0,
        reclaim(unpin_gen(s, s[k].id)) == unpin_gen(s, s[k].id).skip(
            reclaimable(unpin_gen(s, s[k].id)) as int,
        ),
{
    let id = s[k].id;
    let t = unpin_gen(s, id);
    lemma_ids(s);
    assert forall|i: int| 0 <= i < s.len() && #[trigger] s[i].id == id implies i == k by {
        lemma_id_after_inverse(s[0].id, i);
        lemma_id_after_inverse(s[0].id, k);
    }
    assert(t =~= s.update(
        k,
        GenRecord { id: s[k].id, value: s[k].value, readers: (s[k].readers - 1) as u64, next: s[k].next },
    ));
    lemma_reclaim_in_order(t);
    if exists|j: int| 0 <= j <= k && (#[trigger] t[j]).readers > 0 {
        if k > 0 {
            assert(s.len() > 1 && s[0].readers != 0);
            assert(t[0] == s[0]);
        }
        assert(t[0].readers > 0 || t.len() <= 1);
        assert(reclaimable(t) == 0);
        assert(t.skip(0) =~= t);
    }
}

/// One generation: its value, while it is live, and its bookkeeping.
pub struct LinCowCellInner<T> {
    id: u64,
    data: Option<Arc<T>>,
    readers: u64,
    next: Option<u64>,
}

impl<T> LinCowCellInner<T> {
    pub closed spec fn is_live(&self) -> bool {
        self.data is Some
    }

    pub closed spec fn record(&self) -> GenRecord<T> {
        GenRecord { id: self.id, value: *self.data->0, readers: self.readers, next: self.next }
    }

    /// A fresh, unpinned, current generation holding `data`, numbered 0.
    pub fn new(data: T) -> (r: Self)
        ensures
            r.is_live(),
            r.record() == (GenRecord { id: 0, value: data, readers: 0, next: None }),
    {
        LinCowCellInner { id: 0, data: Some(Arc::new(data)), readers: 0, next: None }
    }

    /// A copy of this generation's bookkeeping that shares its value.
    fn share(&self) -> (r: Self)
        requires
            self.is_live(),
        ensures
            r.is_live(),
            r.record() == self.record(),
    {
        let data = match &self.data {
            Some(d) => Some(d.clone()),
            None => None,
        };
        LinCowCellInner { id: self.id, data, readers: self.readers, next: self.next }
    }
}

/// Relies on `Vec`'s `Index`: in bounds it returns the element, and it opens
/// no invariant of this crate, so a destructor may call it.
#[verifier::external_body]
fn slot<X>(v: &Vec<X>, i: usize) -> (r: &X)
    requires
        i < v@.len(),
    ensures
        *r == v@[i as int],
    opens_invariants none
    no_unwind
{
    &v[i]
}

/// Relies on `Vec`'s `IndexMut`: in bounds it lends the element, and it opens
/// no invariant of this crate, so a destructor may call it.
#[verifier::external_body]
fn slot_mut<X>(v: &mut Vec<X>, i: usize) -> (r: &mut X)
    requires
        i < old(v)@.len(),
    ensures
        *r == old(v)@[i as int],
        final(v)@ == old(v)@.update(i as int, *final(r)),
    opens_invariants none
    no_unwind
{
    &mut v[i]
}

/// Sets the reader count of slot `i`.
fn set_readers<T>(v: &mut Vec<LinCowCellInner<T>>, i: usize, n: u64)
    requires
        i < old(v)@.len(),
    ensures
        final(v)@ == old(v)@.update(
            i as int,
            LinCowCellInner { readers: n, ..old(v)@[i as int] },
        ),
    opens_invariants none
    no_unwind
{
    slot_mut(v, i).readers = n;
}

/// Takes the value handle out of slot `i`, leaving it empty.
fn take_slot<T>(v: &mut Vec<LinCowCellInner<T>>, i: usize) -> (r: Option<Arc<T>>)
    requires
        i < old(v)@.len(),
    ensures
        r == old(v)@[i as int].data,
        final(v)@ == old(v)@.update(
            i as int,
            LinCowCellInner { data: None, ..old(v)@[i as int] },
        ),
    opens_invariants none
    no_unwind
{
    let mut d: Option<Arc<T>> = None;
    let s = slot_mut(v, i);
    std::mem::swap(&mut d, &mut s.data);
    d
}

/// The generations of a cell that are still live, oldest first.
pub struct GenerationChain<T> {
    gens: Vec<LinCowCellInner<T>>,
    /// Slots before `first` are reclaimed and wait to be dropped from `gens`.
    first: usize,
    /// Slots `lo..hi` are reclaimed but still hold their values, which the
    /// holder of the lock takes out with `take_reclaimed` and drops once the
    /// lock is released.
    lo: usize,
    hi: usize,
    /// The length of `gens`.
    len: usize,
}

impl<T> View for GenerationChain<T> {
    type V = Seq<GenRecord<T>>;

    closed spec fn view(&self) -> Seq<GenRecord<T>> {
        self.gens@.subrange(self.first as int, self.gens@.len() as int).map_values(
            |g: LinCowCellInner<T>| g.record(),
        )
    }
}

proof fn lemma_id_after_next(id: u64, k: int)
    requires
        0 <= k,
        k + 1 < 0x1_0000_0000_0000_0000,
    ensures
        id_after(id, k + 1) == next_id(id_after(id, k)),
{
}

proof fn lemma_id_after_inverse(id: u64, k: int)
    requires
        0 <= k < 0x1_0000_0000_0000_0000,
    ensures
        vstd::wrapping::u64_specs::wrapping_sub(id_after(id, k), id) == k,
{
}

/// In a well-formed chain the identifiers count up from the oldest one.
proof fn lemma_ids<T>(s: Seq<GenRecord<T>>)
    requires
        chain_wf(s),
    ensures
        forall|i: int| 0 <= i < s.len() ==> #[trigger] s[i].id == id_after(s[0].id, i),
{
    assert forall|i: int| 0 <= i < s.len() implies #[trigger] s[i].id == id_after(s[0].id, i) by {
        lemma_ids_upto(s, i);
    }
}

proof fn lemma_ids_upto<T>(s: Seq<GenRecord<T>>, i: int)
    requires
        chain_wf(s),
        0 <= i < s.len(),
    ensures
        s[i].id == id_after(s[0].id, i),
    decreases i,
{
    if i > 0 {
        lemma_ids_upto(s, i - 1);
        assert(s[(i - 1) + 1].id == next_id(s[i - 1].id));
        lemma_id_after_next(s[0].id, i - 1);
    }
}

/// Dropping generations from the front keeps a chain well formed.
proof fn lemma_wf_skip<T>(s: Seq<GenRecord<T>>, k: int)
    requires
        chain_wf(s),
        0 <= k < s.len(),
    ensures
        chain_wf(s.skip(k)),
{
    let t = s.skip(k);
    assert forall|i: int| 0 <= i < t.len() - 1 implies #[trigger] t[i + 1].id == next_id(t[i].id)
        && t[i].next == Some(t[i + 1].id) by {
        assert(s[(i + k) + 1].id == next_id(s[i + k].id));
    }
}

/// Reclamation keeps a chain well formed and leaves nothing due.
pub proof fn lemma_reclaim_wf<T>(s: Seq<GenRecord<T>>)
    requires
        chain_wf(s),
    ensures
        reclaimable(s) < s.len(),
        chain_wf(reclaim(s)),
        reclaimable(reclaim(s)) == 0,
    decreases s.len(),
{
    if s.len() > 1 && s[0].readers == 0 {
        lemma_wf_skip(s, 1);
        assert(s.drop_first() == s.skip(1));
        lemma_reclaim_wf(s.drop_first());
        assert(reclaim(s) == reclaim(s.drop_first()));
    } else {
        assert(s.skip(0) == s);
    }
}

proof fn lemma_append_wf<T>(s: Seq<GenRecord<T>>, value: T)
    requires
        chain_wf(s),
        s.len() < usize::MAX,
    ensures
        chain_wf(append_gen(s, value)),
{
    let t = append_gen(s, value);
    assert forall|i: int| 0 <= i < t.len() - 1 implies #[trigger] t[i + 1].id == next_id(t[i].id)
        && t[i].next == Some(t[i + 1].id) by {
        if i < s.len() - 1 {
            assert(s[i + 1].id == next_id(s[i].id));
        }
    }
}

impl<T> GenerationChain<T> {
    #[verifier::type_invariant]
    spec fn inv(self) -> bool {
        &&& self.len == self.gens@.len()
        &&& self.first < self.len
        &&& self.lo <= self.hi <= self.first
        &&& forall|i: int| self.first <= i < self.len ==> (#[trigger] self.gens@[i]).is_live()
        &&& chain_wf(self@)
    }

    /// A chain whose only generation, current and unpinned, holds `data`.
    pub fn new(data: T) -> (r: Self)
        ensures
            r@ == seq![GenRecord { id: 0, value: data, readers: 0, next: None }],
            chain_wf(r@),
            reclaimable(r@) == 0,
    {
        let mut gens: Vec<LinCowCellInner<T>> = Vec::new();
        gens.push(LinCowCellInner::new(data));
        let r = GenerationChain { gens, first: 0, len: 1, lo: 0, hi: 0 };
        assert(r@ =~= seq![GenRecord { id: 0, value: data, readers: 0, next: None }]);
        r
    }

    /// The value of the current generation.
    pub fn current(&self) -> (r: &T)
        ensures
            *r == self@.last().value,
    {
        proof {
            use_type_invariant(self);
        }
        let last = self.gens.len() - 1;
        assert(self.gens@[last as int].is_live());
        let d = self.gens[last].data.as_ref().unwrap();
        &**d
    }

    /// A handle on the value of the current generation.
    pub fn current_shared(&self) -> (r: Arc<T>)
        ensures
            *r == self@.last().value,
    {
        proof {
            use_type_invariant(self);
        }
        let last = self.len - 1;
        assert(self.gens@[last as int].is_live());
        self.gens[last].data.as_ref().unwrap().clone()
    }

    /// Pins the current generation for one more reader; returns its
    /// identifier and a handle on its value.
    pub fn pin(&mut self) -> (r: (u64, Arc<T>))
        ensures
            final(self)@ == pin_current(old(self)@),
            r.0 == old(self)@.last().id,
            *r.1 == old(self)@.last().value,
            chain_wf(old(self)@),
            chain_wf(final(self)@),
            reclaimable(old(self)@) == 0 ==> reclaimable(final(self)@) == 0,
    {
        proof {
            use_type_invariant(&*self);
        }
        let last = self.len - 1;
        let n = self.gens[last].readers;
        if n < u64::MAX {
            proof {
                assert(self.gens@.update(last as int, LinCowCellInner { readers: (n + 1) as u64, ..self.gens@[last as int] }).subrange(self.first as int, self.len as int).map_values(|g: LinCowCellInner<T>| g.record()) =~= pin_current(old(self)@));
            }
            set_readers(&mut self.gens, last, n + 1);
        }
        proof {
            use_type_invariant(&*self);
        }
        let id = self.gens[last].id;
        let d = self.gens[last].data.as_ref().unwrap().clone();
        assert(self@ =~= pin_current(old(self)@));
        proof {
            let s0 = old(self)@;
            if s0.len() > 1 {
                assert(self@[0] == s0[0]);
            }
        }
        (id, d)
    }

    /// Reclaims every generation that is due, oldest first; their values stay
    /// held for `take_reclaimed`. Returns how many were reclaimed.
    fn reclaim_front(&mut self) -> (n: usize)
        ensures
            final(self)@ == reclaim(old(self)@),
            chain_wf(final(self)@),
            reclaimable(final(self)@) == 0,
            n == reclaimable(old(self)@),
        opens_invariants none
        no_unwind
    {
        proof {
            use_type_invariant(&*self);
            lemma_reclaim_wf(old(self)@);
        }
        let start = self.first;
        self.hi = start;
        self.lo = start;
        while self.first < self.len - 1 && slot(&self.gens, self.first).readers == 0
            invariant
                self.len == self.gens@.len(),
                start <= self.first < self.len,
                self@.len() >= 1,
                reclaim(self@) == reclaim(old(self)@),
                reclaimable(old(self)@) == (self.first - start) + reclaimable(self@),
            decreases self.gens@.len() - self.first,
        {
            proof {
                use_type_invariant(&*self);
            }
            let ghost before = self@;
            let ghost slots = self.gens@;
            let f = self.first;
            assert(before.drop_first() =~= self.gens@.subrange(f + 1, self.gens@.len() as int).map_values(
                |g: LinCowCellInner<T>| g.record(),
            ));
            proof {
                assert(before[0] == self.gens@[f as int].record());
                lemma_wf_skip(before, 1);
                assert(before.drop_first() == before.skip(1));
                assert(before.len() > 1);
                let k = reclaimable(before.drop_first()) as int;
                assert(reclaimable(before) == 1 + k);
                lemma_reclaim_wf(before.drop_first());
                assert(f + 1 < slots.len());
                assert(before.skip(1 + k) =~= before.drop_first().skip(k));
            }
            self.first = f + 1;
            self.hi = f + 1;
            proof {
                use_type_invariant(&*self);
            }
            assert(self@ =~= before.drop_first());
        }
        proof {
            use_type_invariant(&*self);
        }
        assert(self@.skip(0) =~= self@);
        self.first - start
    }

    /// Takes out the value of the newest reclaimed generation that still
    /// holds one, so that it can be dropped once the lock is released.
    pub fn take_reclaimed(&mut self) -> (r: Option<Arc<T>>)
        ensures
            final(self)@ == old(self)@,
        opens_invariants none
        no_unwind
    {
        proof {
            use_type_invariant(&*self);
        }
        if self.lo < self.hi {
            let i = self.hi - 1;
            self.hi = i;
            proof {
                let slots = self.gens@;
                let taken = slots.update(i as int, LinCowCellInner { data: None, ..slots[i as int] });
                assert(taken.subrange(self.first as int, slots.len() as int) =~= slots.subrange(
                    self.first as int,
                    slots.len() as int,
                ));
            }
            let d = take_slot(&mut self.gens, i);
            proof {
                use_type_invariant(&*self);
            }
            assert(self@ =~= old(self)@);
            d
        } else {
            None
        }
    }

    /// Releases one reader of generation `id`, then reclaims what is due and
    /// returns how many generations that was; their values wait for
    /// `take_reclaimed`. An identifier that names no live generation changes
    /// no count.
    pub fn unpin(&mut self, id: u64) -> (n: usize)
        ensures
            final(self)@ == reclaim(unpin_gen(old(self)@, id)),
            n == reclaimable(unpin_gen(old(self)@, id)),
            chain_wf(final(self)@),
            reclaimable(final(self)@) == 0,
        opens_invariants none
        no_unwind
    {
        proof {
            use_type_invariant(&*self);
            lemma_ids(self@);
        }
        let base = slot(&self.gens, self.first).id;
        let off = if id >= base {
            id - base
        } else {
            id + (u64::MAX - base) + 1
        };
        assert(off == vstd::wrapping::u64_specs::wrapping_sub(id, base));
        let live = self.len - self.first;
        proof {
            assert forall|k: int| 0 <= k < live && #[trigger] old(self)@[k].id == id implies k == off by {
                lemma_id_after_inverse(base, k);
            }
        }
        if off < live as u64 {
            let i = self.first + off as usize;
            let n = slot(&self.gens, i).readers;
            if 0 < n && n < u64::MAX {
                proof {
                    assert(self.gens@.update(i as int, LinCowCellInner { readers: (n - 1) as u64, ..self.gens@[i as int] }).subrange(self.first as int, self.len as int).map_values(|g: LinCowCellInner<T>| g.record()) =~= unpin_gen(old(self)@, id));
                }
                set_readers(&mut self.gens, i, n - 1);
            }
        }
        proof {
            use_type_invariant(&*self);
        }
        assert(self@ =~= unpin_gen(old(self)@, id));
        self.reclaim_front()
    }

    /// Publishes `data` as the new current generation, linked from the one it
    /// supersedes, then reclaims what is due.
    /// Returns the slots it replaced, to be dropped once the lock is released,
    /// and how many generations it reclaimed, whose values wait for
    /// `take_reclaimed`.
    pub fn publish(&mut self, data: T) -> (r: (Vec<LinCowCellInner<T>>, usize))
        ensures
            final(self)@ == reclaim(append_gen(old(self)@, data)),
            r.1 == reclaimable(append_gen(old(self)@, data)),
            chain_wf(final(self)@),
            reclaimable(final(self)@) == 0,
    {
        proof {
            use_type_invariant(&*self);
        }
        let mut fresh: Vec<LinCowCellInner<T>> = Vec::new();
        let mut i = self.first;
        while i < self.gens.len()
            invariant
                *self == *old(self),
                self.first <= i <= self.gens@.len(),
                forall|k: int| self.first <= k < self.gens@.len() ==> (#[trigger] self.gens@[k]).is_live(),
                fresh@.len() == i - self.first,
                forall|k: int|
                    0 <= k < fresh@.len() ==> (#[trigger] fresh@[k]).is_live() && fresh@[k].record()
                        == self@[k],
            decreases self.gens@.len() - i,
        {
            fresh.push(self.gens[i].share());
            i += 1;
        }
        let last = fresh.len() - 1;
        let cur = fresh[last].id;
        let nid = if cur == u64::MAX {
            0
        } else {
            cur + 1
        };
        fresh[last].next = Some(nid);
        let mut g = LinCowCellInner::new(data);
        g.id = nid;
        fresh.push(g);
        let len = fresh.len();
        let ghost s = old(self)@;
        proof {
            lemma_append_wf(s, data);
        }
        let mut chain = GenerationChain { gens: fresh, first: 0, len, lo: 0, hi: 0 };
        assert(chain@ =~= append_gen(s, data));
        let n = chain.reclaim_front();
        std::mem::swap(self, &mut chain);
        let GenerationChain { gens: retired, .. } = chain;
        (retired, n)
    }
}

} // verus!
