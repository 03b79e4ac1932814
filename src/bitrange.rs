//! Sets of ids compressed into ranges of 64: each range keeps the multiple of
//! 64 it starts at and a mask with one bit per id in it.
use crate::idl::{sorted_set, AndNot, IDL};
use vstd::prelude::*;

verus! {

/// The multiple of 64 that the range holding `x` starts at.
pub open spec fn range_key(x: u64) -> u64 {
    (x - x % 64) as u64
}

/// Bit `b` of `mask` is set.
pub open spec fn has_bit(mask: u64, b: u64) -> bool {
    mask & (1u64 << b) != 0
}

/// Ranges in strictly increasing order, each starting at a multiple of 64 and
/// holding at least one id.
pub open spec fn ranges_wf(s: Seq<IDLRange>) -> bool {
    &&& forall|k: int| 0 <= k < s.len() ==> (#[trigger] s[k]).range % 64 == 0 && s[k].mask != 0
    &&& forall|i: int, j: int| 0 <= i < j < s.len() ==> s[i].range < s[j].range
}

/// Every range of `s` starts at a multiple of 64.
pub open spec fn aligned(s: Seq<IDLRange>) -> bool {
    forall|k: int| 0 <= k < s.len() ==> (#[trigger] s[k]).range % 64 == 0
}

/// The mask that `s` keeps for the range starting at `key`; 0 if none.
pub open spec fn mask_of(s: Seq<IDLRange>, key: u64) -> u64
    decreases s.len(),
{
    if s.len() == 0 {
        0
    } else if s.last().range == key {
        s.last().mask
    } else {
        mask_of(s.drop_last(), key)
    }
}

/// `s` holds the id `x`.
pub open spec fn range_holds(s: Seq<IDLRange>, x: u64) -> bool {
    has_bit(mask_of(s, range_key(x)), x % 64)
}

/// Both inputs well formed, `r` is well formed and keeps, for every range,
/// the mask that `f` makes of theirs.
pub open spec fn mask_result(
    a: Seq<IDLRange>,
    b: Seq<IDLRange>,
    r: Seq<IDLRange>,
    f: spec_fn(u64, u64) -> u64,
) -> bool {
    ranges_wf(a) && ranges_wf(b) ==> ranges_wf(r) && forall|key: u64|
        #[trigger] mask_of(r, key) == f(mask_of(a, key), mask_of(b, key))
}

/// One range of 64 ids: where it starts, and which of its ids are present.
#[derive(Debug, Clone, Copy, PartialEq, Eq)]
pub struct IDLRange {
    pub range: u64,
    pub mask: u64,
}

impl IDLRange {
    fn new(range: u64, mask: u64) -> (r: Self)
        ensures
            r == (IDLRange { range, mask }),
    {
        IDLRange { range, mask }
    }

    /// Flips the bit of id `value` of this range.
    fn push_id(&mut self, value: u64)
        requires
            value < 64,
        ensures
            *final(self) == (IDLRange { range: old(self).range, mask: old(self).mask ^ (1u64 << value) }),
    {
        let nmask: u64 = 1u64 << value;
        self.mask = self.mask ^ nmask;
    }
}

/// Beyond the last range of `s` that starts at `key`, `s` and its prefix agree.
proof fn lemma_mask_of_prefix(s: Seq<IDLRange>, i: int, key: u64)
    requires
        0 <= i <= s.len(),
        forall|k: int| i <= k < s.len() ==> (#[trigger] s[k]).range != key,
    ensures
        mask_of(s, key) == mask_of(s.subrange(0, i), key),
    decreases s.len() - i,
{
    if s.len() == i {
        assert(s.subrange(0, i) =~= s);
    } else {
        let t = s.drop_last();
        assert(s.last() == s[s.len() - 1]);
        lemma_mask_of_prefix(t, i, key);
        assert(t.subrange(0, i) =~= s.subrange(0, i));
    }
}

/// A range that `s` does not list has mask 0.
proof fn lemma_mask_of_absent(s: Seq<IDLRange>, key: u64)
    requires
        forall|k: int| 0 <= k < s.len() ==> (#[trigger] s[k]).range != key,
    ensures
        mask_of(s, key) == 0,
{
    lemma_mask_of_prefix(s, 0, key);
}

/// In a well-formed list, the mask of a listed range is the one listed.
proof fn lemma_mask_of_index(s: Seq<IDLRange>, k: int)
    requires
        ranges_wf(s),
        0 <= k < s.len(),
    ensures
        mask_of(s, s[k].range) == s[k].mask,
{
    assert forall|m: int| k + 1 <= m < s.len() implies (#[trigger] s[m]).range != s[k].range by {
        assert(s[k].range < s[m].range);
    }
    lemma_mask_of_prefix(s, k + 1, s[k].range);
    let p = s.subrange(0, k + 1);
    assert(p.last() == s[k]);
}

/// Appending a range changes the mask of that range only.
proof fn lemma_mask_of_push(s: Seq<IDLRange>, e: IDLRange, key: u64)
    ensures
        mask_of(s.push(e), key) == if e.range == key {
            e.mask
        } else {
            mask_of(s, key)
        },
{
    assert(s.push(e).drop_last() =~= s);
}

/// A well-formed list of ranges is determined by its masks: two of them
/// that keep the same mask for every range are the same list. So each set
/// operation below, whose result is well formed with the masks stated, has
/// exactly one possible result.
pub proof fn lemma_ranges_unique(a: Seq<IDLRange>, b: Seq<IDLRange>)
    requires
        ranges_wf(a),
        ranges_wf(b),
        forall|key: u64| #[trigger] mask_of(a, key) == mask_of(b, key),
    ensures
        a == b,
    decreases a.len(),
{
    if a.len() == 0 {
        if b.len() > 0 {
            lemma_mask_of_index(b, b.len() - 1);
            assert(mask_of(a, b[b.len() - 1].range) == 0);
        }
        assert(a =~= b);
    } else {
        let la = a[a.len() - 1];
        lemma_mask_of_index(a, a.len() - 1);
        assert(mask_of(b, la.range) != 0);
        if b.len() == 0 {
            assert(mask_of(b, la.range) == 0);
        }
        let lb = b[b.len() - 1];
        lemma_mask_of_index(b, b.len() - 1);
        assert(mask_of(a, lb.range) != 0);
        if forall|k: int| 0 <= k < b.len() ==> (#[trigger] b[k]).range != la.range {
            lemma_mask_of_absent(b, la.range);
        }
        if forall|k: int| 0 <= k < a.len() ==> (#[trigger] a[k]).range != lb.range {
            lemma_mask_of_absent(a, lb.range);
        }
        let kb = choose|k: int| 0 <= k < b.len() && (#[trigger] b[k]).range == la.range;
        let ka = choose|k: int| 0 <= k < a.len() && (#[trigger] a[k]).range == lb.range;
        if kb < b.len() - 1 {
            assert(b[kb].range < lb.range);
        }
        if ka < a.len() - 1 {
            assert(a[ka].range < la.range);
        }
        assert(la.range == lb.range);
        assert(la == lb);
        let a1 = a.drop_last();
        let b1 = b.drop_last();
        assert forall|key: u64| #[trigger] mask_of(a1, key) == mask_of(b1, key) by {
            if key == la.range {
                assert forall|k: int| 0 <= k < a1.len() implies (#[trigger] a1[k]).range != key by {
                    assert(a[k].range < la.range);
                }
                assert forall|k: int| 0 <= k < b1.len() implies (#[trigger] b1[k]).range != key by {
                    assert(b[k].range < lb.range);
                }
                lemma_mask_of_absent(a1, key);
                lemma_mask_of_absent(b1, key);
            } else {
                assert(mask_of(a, key) == mask_of(b, key));
            }
        }
        lemma_ranges_unique(a1, b1);
        assert(a =~= a1.push(la));
        assert(b =~= b1.push(lb));
    }
}

/// Keeps the masks of the ranges that both lists hold, where they meet.
fn intersect_ranges(a: &Vec<IDLRange>, b: &Vec<IDLRange>) -> (r: Vec<IDLRange>)
    ensures
        aligned(a@) && aligned(b@) ==> aligned(r@),
        mask_result(a@, b@, r@, |x: u64, y: u64| x & y),
{
    let ghost ok = ranges_wf(a@) && ranges_wf(b@);
    let mut r: Vec<IDLRange> = Vec::new();
    let mut i: usize = 0;
    let mut j: usize = 0;
    proof {
        assert(a@.subrange(0, 0) =~= Seq::<IDLRange>::empty());
        assert(forall|y: u64| 0u64 & y == 0u64) by (bit_vector);
    }
    while i < a.len() && j < b.len()
        invariant
            i <= a@.len(),
            j <= b@.len(),
            ok == (ranges_wf(a@) && ranges_wf(b@)),
            aligned(a@) && aligned(b@) ==> aligned(r@),
            ok ==> ranges_wf(r@),
            ok ==> forall|key: u64|
                #[trigger] mask_of(r@, key) == mask_of(a@.subrange(0, i as int), key) & mask_of(
                    b@,
                    key,
                ),
            ok ==> forall|k: int| 0 <= k < r@.len() && i < a@.len() ==> r@[k].range < a@[i as int].range,
            ok ==> forall|k: int| 0 <= k < j && i < a@.len() ==> b@[k].range < a@[i as int].range,
            ok ==> forall|k: int| 0 <= k < i && j < b@.len() ==> a@[k].range < b@[j as int].range,
        decreases a@.len() + b@.len() - i - j,
    {
        let l = a[i];
        let x = b[j];
        let ghost r0 = r@;
        let ghost taken = a@.subrange(0, i as int);
        let ghost taken_next = a@.subrange(0, i + 1);
        if l.range == x.range {
            let mask = l.mask & x.mask;
            if mask > 0 {
                r.push(IDLRange::new(l.range, mask));
            }
            proof {
                if ok {
                    assert(taken_next =~= taken.push(l));
                    lemma_mask_of_index(b@, j as int);
                    assert forall|k: int| 0 <= k < r0.len() implies (#[trigger] r0[k]).range != l.range by {}
                    lemma_mask_of_absent(r0, l.range);
                    assert forall|key: u64| #[trigger] mask_of(r@, key) == mask_of(taken_next, key) & mask_of(b@, key) by {
                        lemma_mask_of_push(taken, l, key);
                        if mask > 0 {
                            lemma_mask_of_push(r0, IDLRange { range: l.range, mask }, key);
                        }
                    }
                    if i + 1 < a@.len() {
                        assert(a@[i as int].range < a@[i + 1].range);
                    }
                    if j + 1 < b@.len() {
                        assert(b@[j as int].range < b@[j + 1].range);
                    }
                }
            }
            i += 1;
            j += 1;
        } else if l.range < x.range {
            proof {
                if ok {
                    assert(taken_next =~= taken.push(l));
                    assert forall|k: int| 0 <= k < b@.len() implies (#[trigger] b@[k]).range != l.range by {
                        if k > j {
                            assert(b@[j as int].range < b@[k].range);
                        }
                    }
                    lemma_mask_of_absent(b@, l.range);
                    assert forall|k: int| 0 <= k < r0.len() implies (#[trigger] r0[k]).range != l.range by {}
                    lemma_mask_of_absent(r0, l.range);
                    assert forall|key: u64| #[trigger] mask_of(r@, key) == mask_of(taken_next, key) & mask_of(b@, key) by {
                        lemma_mask_of_push(taken, l, key);
                        let m = l.mask;
                        assert(m & 0u64 == 0u64) by (bit_vector);
                    }
                    if i + 1 < a@.len() {
                        assert(a@[i as int].range < a@[i + 1].range);
                    }
                }
            }
            i += 1;
        } else {
            proof {
                if ok && j + 1 < b@.len() {
                    assert(b@[j as int].range < b@[j + 1].range);
                }
            }
            j += 1;
        }
    }
    proof {
        if ok {
            assert forall|key: u64| #[trigger] mask_of(r@, key) == mask_of(a@, key) & mask_of(b@, key) by {
                if i < a@.len() {
                    if exists|k: int| i <= k < a@.len() && (#[trigger] a@[k]).range == key {
                        let k = choose|k: int| i <= k < a@.len() && (#[trigger] a@[k]).range == key;
                        assert forall|m: int| 0 <= m < b@.len() implies (#[trigger] b@[m]).range != key by {
                            if k > i {
                                assert(a@[i as int].range < a@[k].range);
                            }
                        }
                        lemma_mask_of_absent(b@, key);
                        let x = mask_of(a@.subrange(0, i as int), key);
                        let y = mask_of(a@, key);
                        assert(x & 0u64 == 0u64 && y & 0u64 == 0u64) by (bit_vector);
                    } else {
                        lemma_mask_of_prefix(a@, i as int, key);
                    }
                } else {
                    assert(a@.subrange(0, i as int) =~= a@);
                }
            }
        }
    }
    r
}

/// Joins the masks of both lists, range by range.
fn union_ranges(a: &Vec<IDLRange>, b: &Vec<IDLRange>) -> (r: Vec<IDLRange>)
    ensures
        aligned(a@) && aligned(b@) ==> aligned(r@),
        mask_result(a@, b@, r@, |x: u64, y: u64| x | y),
{
    let ghost ok = ranges_wf(a@) && ranges_wf(b@);
    let mut r: Vec<IDLRange> = Vec::new();
    let mut i: usize = 0;
    let mut j: usize = 0;
    proof {
        assert(a@.subrange(0, 0) =~= Seq::<IDLRange>::empty());
        assert(b@.subrange(0, 0) =~= Seq::<IDLRange>::empty());
        assert(0u64 | 0u64 == 0u64) by (bit_vector);
    }
    while i < a.len() && j < b.len()
        invariant
            i <= a@.len(),
            j <= b@.len(),
            ok == (ranges_wf(a@) && ranges_wf(b@)),
            aligned(a@) && aligned(b@) ==> aligned(r@),
            ok ==> union_inv(a@, b@, r@, i as int, j as int),
        decreases a@.len() + b@.len() - i - j,
    {
        let l = a[i];
        let x = b[j];
        let ghost (r0, i0, j0) = (r@, i as int, j as int);
        let e = if l.range == x.range {
            i += 1;
            j += 1;
            IDLRange::new(l.range, l.mask | x.mask)
        } else if l.range < x.range {
            i += 1;
            IDLRange::new(l.range, l.mask)
        } else {
            j += 1;
            IDLRange::new(x.range, x.mask)
        };
        r.push(e);
        proof {
            if ok {
                let m = l.mask;
                let n = x.mask;
                assert(m | 0u64 == m && 0u64 | n == n) by (bit_vector);
                lemma_union_step(a@, b@, r0, i0, j0, i as int, j as int, e);
            }
        }
    }
    while i < a.len()
        invariant
            i <= a@.len(),
            j <= b@.len(),
            i < a@.len() ==> j == b@.len(),
            ok == (ranges_wf(a@) && ranges_wf(b@)),
            aligned(a@) && aligned(b@) ==> aligned(r@),
            ok ==> union_inv(a@, b@, r@, i as int, j as int),
        decreases a@.len() - i,
    {
        let l = a[i];
        let ghost (r0, i0, j0) = (r@, i as int, j as int);
        i += 1;
        let e = IDLRange::new(l.range, l.mask);
        r.push(e);
        proof {
            if ok {
                let m = l.mask;
                assert(m | 0u64 == m) by (bit_vector);
                lemma_union_step(a@, b@, r0, i0, j0, i as int, j as int, e);
            }
        }
    }
    while j < b.len()
        invariant
            i == a@.len(),
            j <= b@.len(),
            ok == (ranges_wf(a@) && ranges_wf(b@)),
            aligned(a@) && aligned(b@) ==> aligned(r@),
            ok ==> union_inv(a@, b@, r@, i as int, j as int),
        decreases b@.len() - j,
    {
        let x = b[j];
        let ghost (r0, i0, j0) = (r@, i as int, j as int);
        j += 1;
        let e = IDLRange::new(x.range, x.mask);
        r.push(e);
        proof {
            if ok {
                let n = x.mask;
                assert(0u64 | n == n) by (bit_vector);
                lemma_union_step(a@, b@, r0, i0, j0, i as int, j as int, e);
            }
        }
    }
    proof {
        assert(a@.subrange(0, i as int) =~= a@);
        assert(b@.subrange(0, j as int) =~= b@);
    }
    r
}

/// A union merge that has consumed `a[..i]` and `b[..j]` into `r`.
spec fn union_inv(a: Seq<IDLRange>, b: Seq<IDLRange>, r: Seq<IDLRange>, i: int, j: int) -> bool {
    &&& ranges_wf(r)
    &&& forall|key: u64|
        #[trigger] mask_of(r, key) == mask_of(a.subrange(0, i), key) | mask_of(b.subrange(0, j), key)
    &&& forall|k: int| 0 <= k < r.len() && i < a.len() ==> r[k].range < a[i].range
    &&& forall|k: int| 0 <= k < r.len() && j < b.len() ==> r[k].range < b[j].range
    &&& forall|k: int| 0 <= k < i && j < b.len() ==> a[k].range < b[j].range
    &&& forall|k: int| 0 <= k < j && i < a.len() ==> b[k].range < a[i].range
}

/// One step of a union merge: `e` joins the heads it was taken from.
proof fn lemma_union_step(
    a: Seq<IDLRange>,
    b: Seq<IDLRange>,
    r0: Seq<IDLRange>,
    i0: int,
    j0: int,
    i: int,
    j: int,
    e: IDLRange,
)
    requires
        ranges_wf(a),
        ranges_wf(b),
        union_inv(a, b, r0, i0, j0),
        0 <= i0 <= i <= a.len(),
        0 <= j0 <= j <= b.len(),
        i == i0 || i == i0 + 1,
        j == j0 || j == j0 + 1,
        i == i0 + 1 || j == j0 + 1,
        i == i0 + 1 ==> a[i0].range == e.range,
        j == j0 + 1 ==> b[j0].range == e.range,
        e.mask == (if i == i0 + 1 {
            a[i0].mask
        } else {
            0u64
        }) | (if j == j0 + 1 {
            b[j0].mask
        } else {
            0u64
        }),
        i == i0 && i0 < a.len() ==> e.range < a[i0].range,
        j == j0 && j0 < b.len() ==> e.range < b[j0].range,
    ensures
        union_inv(a, b, r0.push(e), i, j),
{
    let r = r0.push(e);
    let pa0 = a.subrange(0, i0);
    let pa = a.subrange(0, i);
    let pb0 = b.subrange(0, j0);
    let pb = b.subrange(0, j);
    let ka = if i == i0 + 1 { a[i0].mask } else { 0u64 };
    let kb = if j == j0 + 1 { b[j0].mask } else { 0u64 };
    assert(ka != 0 || kb != 0);
    assert((ka != 0 || kb != 0) ==> ka | kb != 0) by (bit_vector);
    if i == i0 + 1 {
        assert(pa =~= pa0.push(a[i0]));
    } else {
        assert(pa =~= pa0);
        assert forall|k: int| 0 <= k < pa0.len() implies (#[trigger] pa0[k]).range != e.range by {}
        lemma_mask_of_absent(pa0, e.range);
    }
    if j == j0 + 1 {
        assert(pb =~= pb0.push(b[j0]));
    } else {
        assert(pb =~= pb0);
        assert forall|k: int| 0 <= k < pb0.len() implies (#[trigger] pb0[k]).range != e.range by {}
        lemma_mask_of_absent(pb0, e.range);
    }
    assert forall|key: u64| #[trigger] mask_of(r, key) == mask_of(pa, key) | mask_of(pb, key) by {
        lemma_mask_of_push(r0, e, key);
        if i == i0 + 1 {
            lemma_mask_of_push(pa0, a[i0], key);
        }
        if j == j0 + 1 {
            lemma_mask_of_push(pb0, b[j0], key);
        }
    }
    assert forall|k: int| 0 <= k < r.len() && i < a.len() implies r[k].range < a[i].range by {
        if i == i0 + 1 {
            assert(a[i0].range < a[i].range);
        }
    }
    assert forall|k: int| 0 <= k < r.len() && j < b.len() implies r[k].range < b[j].range by {
        if j == j0 + 1 {
            assert(b[j0].range < b[j].range);
        }
    }
    assert forall|k: int| 0 <= k < i && j < b.len() implies a[k].range < b[j].range by {
        if j == j0 + 1 {
            assert(b[j0].range < b[j].range);
        }
    }
    assert forall|k: int| 0 <= k < j && i < a.len() implies b[k].range < a[i].range by {
        if i == i0 + 1 {
            assert(a[i0].range < a[i].range);
        }
    }
    assert(e.range % 64 == 0);
}

/// Keeps the masks of `a` without the bits that `b` has, range by range.
fn difference_ranges(a: &Vec<IDLRange>, b: &Vec<IDLRange>) -> (r: Vec<IDLRange>)
    ensures
        aligned(a@) && aligned(b@) ==> aligned(r@),
        mask_result(a@, b@, r@, |x: u64, y: u64| x & !y),
{
    let ghost ok = ranges_wf(a@) && ranges_wf(b@);
    let mut r: Vec<IDLRange> = Vec::new();
    let mut i: usize = 0;
    let mut j: usize = 0;
    proof {
        assert(a@.subrange(0, 0) =~= Seq::<IDLRange>::empty());
        assert(forall|y: u64| 0u64 & !y == 0u64) by (bit_vector);
    }
    while i < a.len() && j < b.len()
        invariant
            i <= a@.len(),
            j <= b@.len(),
            ok == (ranges_wf(a@) && ranges_wf(b@)),
            aligned(a@) && aligned(b@) ==> aligned(r@),
            ok ==> difference_inv(a@, b@, r@, i as int, j as int),
        decreases a@.len() + b@.len() - i - j,
    {
        let l = a[i];
        let x = b[j];
        let ghost (r0, i0) = (r@, i as int);
        if l.range == x.range {
            let mask = l.mask & (!x.mask);
            if mask > 0 {
                r.push(IDLRange::new(l.range, mask));
            }
            proof {
                if ok {
                    lemma_mask_of_index(b@, j as int);
                    lemma_difference_take(a@, b@, r0, r@, i0, j as int, mask);
                    if j + 1 < b@.len() {
                        assert(b@[j as int].range < b@[j + 1].range);
                    }
                }
            }
            i += 1;
            j += 1;
        } else if l.range < x.range {
            r.push(IDLRange::new(l.range, l.mask));
            proof {
                if ok {
                    assert forall|k: int| 0 <= k < b@.len() implies (#[trigger] b@[k]).range != l.range by {
                        if k > j {
                            assert(b@[j as int].range < b@[k].range);
                        }
                    }
                    lemma_mask_of_absent(b@, l.range);
                    let m = l.mask;
                    assert(m & !0u64 == m) by (bit_vector);
                    lemma_difference_take(a@, b@, r0, r@, i0, j as int, l.mask);
                }
            }
            i += 1;
        } else {
            j += 1;
        }
    }
    while i < a.len()
        invariant
            i <= a@.len(),
            j <= b@.len(),
            i < a@.len() ==> j == b@.len(),
            ok == (ranges_wf(a@) && ranges_wf(b@)),
            aligned(a@) && aligned(b@) ==> aligned(r@),
            ok ==> difference_inv(a@, b@, r@, i as int, j as int),
        decreases a@.len() - i,
    {
        let l = a[i];
        let ghost (r0, i0) = (r@, i as int);
        r.push(IDLRange::new(l.range, l.mask));
        proof {
            if ok {
                assert forall|k: int| 0 <= k < b@.len() implies (#[trigger] b@[k]).range != l.range by {}
                lemma_mask_of_absent(b@, l.range);
                let m = l.mask;
                assert(m & !0u64 == m) by (bit_vector);
                lemma_difference_take(a@, b@, r0, r@, i0, j as int, l.mask);
            }
        }
        i += 1;
    }
    proof {
        assert(a@.subrange(0, i as int) =~= a@);
    }
    r
}

/// A difference merge that has consumed `a[..i]` into `r`, with `b[..j]`
/// below the head of `a`.
spec fn difference_inv(a: Seq<IDLRange>, b: Seq<IDLRange>, r: Seq<IDLRange>, i: int, j: int) -> bool {
    &&& ranges_wf(r)
    &&& forall|key: u64| #[trigger] mask_of(r, key) == mask_of(a.subrange(0, i), key) & !mask_of(b, key)
    &&& forall|k: int| 0 <= k < r.len() && i < a.len() ==> r[k].range < a[i].range
    &&& forall|k: int| 0 <= k < j && i < a.len() ==> b[k].range < a[i].range
}

/// Taking the head `a[i0]` of a difference, whose range keeps `mask` once the
/// bits of `b` are gone; it joins the result when `mask` is not empty.
proof fn lemma_difference_take(
    a: Seq<IDLRange>,
    b: Seq<IDLRange>,
    r0: Seq<IDLRange>,
    r: Seq<IDLRange>,
    i0: int,
    j0: int,
    mask: u64,
)
    requires
        ranges_wf(a),
        ranges_wf(b),
        0 <= i0 < a.len(),
        0 <= j0 <= b.len(),
        difference_inv(a, b, r0, i0, j0),
        mask == a[i0].mask & !mask_of(b, a[i0].range),
        j0 < b.len() ==> a[i0].range <= b[j0].range,
        r == (if mask != 0 {
            r0.push(IDLRange { range: a[i0].range, mask })
        } else {
            r0
        }),
    ensures
        difference_inv(a, b, r, i0 + 1, if j0 < b.len() && a[i0].range == b[j0].range {
            j0 + 1
        } else {
            j0
        }),
{
    let l = a[i0];
    let e = IDLRange { range: l.range, mask };
    let taken = a.subrange(0, i0);
    let taken_next = a.subrange(0, i0 + 1);
    assert(taken_next =~= taken.push(l));
    assert forall|k: int| 0 <= k < r0.len() implies (#[trigger] r0[k]).range != l.range by {}
    lemma_mask_of_absent(r0, l.range);
    assert forall|key: u64| #[trigger] mask_of(r, key) == mask_of(taken_next, key) & !mask_of(b, key) by {
        lemma_mask_of_push(taken, l, key);
        if mask != 0 {
            lemma_mask_of_push(r0, e, key);
        }
    }
    if i0 + 1 < a.len() {
        assert(a[i0].range < a[i0 + 1].range);
    }
}

/// `s` once id `v` is pushed: it flips its bit when the last range is the
/// one that holds `v`, and starts a new range otherwise.
pub open spec fn push_range(s: Seq<IDLRange>, v: u64) -> Seq<IDLRange> {
    let key = range_key(v);
    let bit = 1u64 << (v % 64);
    if s.len() > 0 && s.last().range == key {
        s.update(s.len() - 1, IDLRange { range: key, mask: s.last().mask ^ bit })
    } else {
        s.push(IDLRange { range: key, mask: bit })
    }
}

/// `s` once each of `ids` is pushed in turn.
pub open spec fn push_all(s: Seq<IDLRange>, ids: Seq<u64>) -> Seq<IDLRange>
    decreases ids.len(),
{
    if ids.len() == 0 {
        s
    } else {
        push_range(push_all(s, ids.drop_last()), ids.last())
    }
}

/// Pushing strictly increasing ids builds the well-formed compressed form of
/// exactly the set they list, its last range holding the last id.
pub proof fn lemma_push_sorted(ids: Seq<u64>)
    requires
        sorted_set(ids),
    ensures
        ranges_wf(push_all(Seq::empty(), ids)),
        forall|x: u64| #[trigger] range_holds(push_all(Seq::empty(), ids), x) <==> ids.contains(x),
        ids.len() > 0 ==> push_all(Seq::empty(), ids).len() > 0 && push_all(Seq::empty(), ids).last().range
            == range_key(ids.last()),
    decreases ids.len(),
{
    if ids.len() == 0 {
        assert forall|x: u64| #[trigger] range_holds(push_all(Seq::empty(), ids), x) <==> ids.contains(x) by {
            assert(mask_of(Seq::<IDLRange>::empty(), range_key(x)) == 0);
            let c = x % 64;
            assert(0u64 & (1u64 << c) == 0u64) by (bit_vector);
        }
    } else {
        let pre = ids.drop_last();
        let v = ids.last();
        assert forall|i: int, j: int| 0 <= i < j < pre.len() implies pre[i] < pre[j] by {
            assert(pre[i] == ids[i] && pre[j] == ids[j]);
        }
        lemma_push_sorted(pre);
        let s = push_all(Seq::empty(), pre);
        let t = push_all(Seq::empty(), ids);
        assert(t == push_range(s, v));
        let key = range_key(v);
        let b = v % 64;
        let bit = 1u64 << b;
        assert(forall|y: u64| pre.contains(y) ==> y < v) by {
            assert forall|y: u64| pre.contains(y) implies y < v by {
                let k = choose|k: int| 0 <= k < pre.len() && pre[k] == y;
                assert(ids[k] < ids[ids.len() - 1]);
            }
        }
        assert forall|y: u64| ids.contains(y) <==> (pre.contains(y) || y == v) by {
            if ids.contains(y) && y != v {
                let k = choose|k: int| 0 <= k < ids.len() && ids[k] == y;
                assert(pre[k] == y);
            }
            if pre.contains(y) {
                let k = choose|k: int| 0 <= k < pre.len() && pre[k] == y;
                assert(ids[k] == y);
            }
            if y == v {
                assert(ids[ids.len() - 1] == v);
            }
        }
        assert(!range_holds(s, v));
        assert(bit != 0) by (bit_vector)
            requires
                bit == 1u64 << b,
                b < 64,
        ;
        assert forall|c: u64| c < 64 implies (#[trigger] has_bit(bit, c) <==> c == b) by {
            assert(c < 64 && b < 64 ==> ((1u64 << b) & (1u64 << c) != 0 <==> c == b)) by (bit_vector);
        }
        assert forall|x: u64| (range_key(x) == key && x % 64 == b) <==> x == v by {}
        if s.len() > 0 && s.last().range == key {
            let m = s.last().mask;
            let m2 = m ^ bit;
            assert(!has_bit(m, b)) by {
                lemma_mask_of_index(s, s.len() - 1);
                assert(s[s.len() - 1] == s.last());
            }
            assert forall|c: u64| c < 64 implies (#[trigger] has_bit(m2, c) <==> (has_bit(m, c) || c == b)) by {
                assert(b < 64 && c < 64 && m & (1u64 << b) == 0 ==> ((m ^ (1u64 << b)) & (1u64 << c) != 0
                    <==> (m & (1u64 << c) != 0 || c == b))) by (bit_vector);
            }
            assert(m2 != 0) by {
                assert(has_bit(m2, b));
                assert(m2 & (1u64 << b) != 0 ==> m2 != 0) by (bit_vector);
            }
            let e = IDLRange { range: key, mask: m2 };
            assert(t == s.update(s.len() - 1, e));
            assert(t.drop_last() =~= s.drop_last());
            assert forall|k2: u64| #[trigger] mask_of(t, k2) == if k2 == key {
                m2
            } else {
                mask_of(s, k2)
            } by {}
            lemma_mask_of_index(s, s.len() - 1);
            assert(s[s.len() - 1] == s.last());
            assert(mask_of(s, key) == m);
            assert forall|x: u64| #[trigger] range_holds(t, x) <==> ids.contains(x) by {
                let c = x % 64;
                assert(c < 64);
                assert(range_holds(s, x) <==> pre.contains(x));
                if range_key(x) == key {
                    assert(mask_of(t, key) == m2);
                    assert(range_holds(t, x) == has_bit(m2, c));
                    assert(has_bit(m2, c) <==> (has_bit(m, c) || c == b));
                    assert(range_holds(s, x) == has_bit(m, c));
                    assert((c == b) <==> x == v);
                } else {
                    assert(mask_of(t, range_key(x)) == mask_of(s, range_key(x)));
                    assert(x != v);
                }
            }
        } else {
            let e = IDLRange { range: key, mask: bit };
            assert(t == s.push(e));
            if s.len() > 0 {
                let w = pre.last();
                assert(pre.contains(w)) by {
                    assert(pre[pre.len() - 1] == w);
                }
                assert(w < v);
                assert(w <= v ==> w - w % 64 <= v - v % 64) by (nonlinear_arith);
                assert(s.last().range < key);
            }
            assert forall|k: int| 0 <= k < s.len() implies (#[trigger] s[k]).range != key by {
                if k < s.len() - 1 {
                    assert(s[k].range < s[s.len() - 1].range);
                }
            }
            lemma_mask_of_absent(s, key);
            assert(forall|c: u64| c < 64 ==> (0u64 & (1u64 << c) == 0u64)) by (bit_vector);
            assert forall|x: u64| #[trigger] range_holds(t, x) <==> ids.contains(x) by {
                lemma_mask_of_push(s, e, range_key(x));
                let c = x % 64;
                assert(c < 64);
                assert(range_holds(s, x) <==> pre.contains(x));
                if range_key(x) == key {
                    assert(mask_of(t, key) == bit);
                    assert(range_holds(t, x) == has_bit(bit, c));
                    assert(has_bit(bit, c) <==> c == b);
                    assert(mask_of(s, key) == 0);
                    assert(!has_bit(0u64, c));
                    assert(!range_holds(s, x));
                    assert((c == b) <==> x == v);
                } else {
                    assert(x != v);
                }
            }
            assert forall|i: int, j: int| 0 <= i < j < t.len() implies t[i].range < t[j].range by {
                if j == t.len() - 1 && i < s.len() - 1 {
                    assert(s[i].range < s[s.len() - 1].range);
                }
            }
        }
    }
}

/// Where the range starting at `key` sits in the sorted list `v`, by binary
/// search. On a list that is not sorted, a position found is still right.
fn search_range(v: &Vec<IDLRange>, key: u64) -> (r: Option<usize>)
    ensures
        r matches Some(i) ==> i < v@.len() && v@[i as int].range == key,
        ranges_wf(v@) && r is None ==> forall|k: int| 0 <= k < v@.len() ==> (#[trigger] v@[k]).range != key,
{
    let mut lo: usize = 0;
    let mut hi: usize = v.len();
    while lo < hi
        invariant
            lo <= hi <= v@.len(),
            ranges_wf(v@) ==> forall|k: int| 0 <= k < lo ==> (#[trigger] v@[k]).range < key,
            ranges_wf(v@) ==> forall|k: int| hi <= k < v@.len() ==> (#[trigger] v@[k]).range > key,
        decreases hi - lo,
    {
        let mid = lo + (hi - lo) / 2;
        let m = v[mid].range;
        if m == key {
            return Some(mid);
        } else if m < key {
            proof {
                if ranges_wf(v@) {
                    assert forall|k: int| 0 <= k < mid + 1 implies (#[trigger] v@[k]).range < key by {
                        if k < mid {
                            assert(v@[k].range < v@[mid as int].range);
                        }
                    }
                }
            }
            lo = mid + 1;
        } else {
            proof {
                if ranges_wf(v@) {
                    assert forall|k: int| mid <= k < v@.len() implies (#[trigger] v@[k]).range > key by {
                        if k > mid {
                            assert(v@[mid as int].range < v@[k].range);
                        }
                    }
                }
            }
            hi = mid;
        }
    }
    None
}

/// A set of ids compressed into ranges of 64.
#[derive(Debug, PartialEq)]
pub struct IDLBitRange {
    list: Vec<IDLRange>,
}

impl View for IDLBitRange {
    type V = Seq<IDLRange>;

    closed spec fn view(&self) -> Seq<IDLRange> {
        self.list@
    }
}

/// Where `f` keeps each bit of two masks exactly as `p` combines the two
/// bits, a result whose masks `f` makes holds exactly the ids `p` selects.
proof fn lemma_mask_holds(
    a: Seq<IDLRange>,
    b: Seq<IDLRange>,
    r: Seq<IDLRange>,
    f: spec_fn(u64, u64) -> u64,
    p: spec_fn(bool, bool) -> bool,
)
    requires
        mask_result(a, b, r, f),
        forall|x: u64, y: u64, c: u64|
            c < 64 ==> (#[trigger] has_bit(f(x, y), c) <==> p(has_bit(x, c), has_bit(y, c))),
    ensures
        ranges_wf(a) && ranges_wf(b) ==> forall|x: u64|
            #[trigger] range_holds(r, x) <==> p(range_holds(a, x), range_holds(b, x)),
{
    if ranges_wf(a) && ranges_wf(b) {
        assert forall|x: u64| #[trigger] range_holds(r, x) <==> p(range_holds(a, x), range_holds(b, x)) by {
            let key = range_key(x);
            assert(mask_of(r, key) == f(mask_of(a, key), mask_of(b, key)));
        }
    }
}

impl IDLBitRange {
    #[verifier::type_invariant]
    spec fn inv(self) -> bool {
        aligned(self.list@)
    }

    /// The empty set.
    pub fn new() -> (r: Self)
        ensures
            r@ == Seq::<IDLRange>::empty(),
    {
        IDLBitRange { list: Vec::new() }
    }

    /// The set holding `id` alone.
    pub fn from_u64(id: u64) -> (r: Self)
        ensures
            r@ == push_range(Seq::empty(), id),
    {
        let mut new = IDLBitRange::new();
        new.push_id(id);
        new
    }

    /// The ids pushed in the order given. Strictly increasing ids give the
    /// well-formed compressed form of exactly their set.
    pub fn from_iter(ids: Vec<u64>) -> (r: Self)
        ensures
            r@ == push_all(Seq::empty(), ids@),
            sorted_set(ids@) ==> ranges_wf(r@) && forall|x: u64|
                #[trigger] range_holds(r@, x) <==> ids@.contains(x),
    {
        let mut new = IDLBitRange { list: Vec::new() };
        let mut i: usize = 0;
        while i < ids.len()
            invariant
                i <= ids@.len(),
                new@ == push_all(Seq::empty(), ids@.subrange(0, i as int)),
            decreases ids@.len() - i,
        {
            new.push_id(ids[i]);
            proof {
                let p = ids@.subrange(0, i + 1);
                assert(p.drop_last() =~= ids@.subrange(0, i as int));
            }
            i += 1;
        }
        assert(ids@.subrange(0, i as int) =~= ids@);
        proof {
            if sorted_set(ids@) {
                lemma_push_sorted(ids@);
            }
        }
        new
    }

    /// The ids of `candidate` that this sorted set holds too.
    fn bstbitand(&self, candidate: &IDLRange) -> (r: Self)
        requires
            candidate.range % 64 == 0,
        ensures
            ranges_wf(self@) && candidate.mask != 0 ==> mask_result(
                seq![*candidate],
                self@,
                r@,
                |x: u64, y: u64| x & y,
            ),
    {
        proof {
            use_type_invariant(self);
        }
        let mut list: Vec<IDLRange> = Vec::new();
        let ghost c = *candidate;
        let ghost wf = ranges_wf(self@) && c.mask != 0;
        let ghost ms = mask_of(self@, c.range);
        let found = search_range(&self.list, candidate.range);
        if let Some(idx) = found {
            let existing = self.list[idx];
            let mask = existing.mask & candidate.mask;
            if mask > 0 {
                let newrange = IDLRange::new(candidate.range, mask);
                list.push(newrange);
            }
            proof {
                if wf {
                    lemma_mask_of_index(self@, idx as int);
                    assert(ms == existing.mask);
                    let e = existing.mask;
                    let f = c.mask;
                    assert(e & f == f & e) by (bit_vector);
                    assert(list@.len() == 0 ==> c.mask & ms == 0);
                    assert(list@.len() > 0 ==> list@ == seq![IDLRange { range: c.range, mask: c.mask & ms }]);
                }
            }
        } else {
            proof {
                if wf {
                    lemma_mask_of_absent(self@, c.range);
                    let f = c.mask;
                    assert(f & 0u64 == 0u64) by (bit_vector);
                }
            }
        }
        let result = IDLBitRange { list };
        proof {
            if wf {
                let one = seq![c];
                assert(forall|y: u64| 0u64 & y == 0u64) by (bit_vector);
                assert(one.drop_last() =~= Seq::<IDLRange>::empty());
                assert(result@.len() == 0 ==> c.mask & ms == 0);
                assert(result@.len() == 0 || result@ == seq![IDLRange { range: c.range, mask: c.mask & ms }]);
                assert forall|key: u64| #[trigger] mask_of(result@, key) == mask_of(one, key) & mask_of(self@, key) by {
                    if result@.len() > 0 {
                        assert(result@.drop_last() =~= Seq::<IDLRange>::empty());
                    }
                    if key == c.range {
                        assert(mask_of(one, key) == c.mask);
                        assert(mask_of(self@, key) == ms);
                    } else {
                        assert(mask_of(Seq::<IDLRange>::empty(), key) == 0);
                        assert(one.last() == c);
                        assert(mask_of(one, key) == 0);
                        assert(mask_of(result@, key) == 0);
                    }
                }
            }
        }
        result
    }
}

impl IDL for IDLBitRange {
    fn push_id(&mut self, value: u64)
        ensures
            final(self)@ == push_range(old(self)@, value),
    {
        proof {
            use_type_invariant(&*self);
        }
        // Get what range this should be
        let bvalue: u64 = value % 64;
        let range: u64 = value - bvalue;
        let mut list: Vec<IDLRange> = Vec::new();
        std::mem::swap(&mut list, &mut self.list);
        let n = list.len();
        if n > 0 && list[n - 1].range == range {
            // Insert the bit.
            let mut last = list[n - 1];
            last.push_id(bvalue);
            list.set(n - 1, last);
        } else {
            // New takes a starting mask, not a raw bval, so shift it!
            let newrange = IDLRange::new(range, 1u64 << bvalue);
            list.push(newrange);
        }
        assert((value - value % 64) % 64 == 0);
        std::mem::swap(&mut list, &mut self.list);
    }

    /// Not counted here: this always answers 0.
    fn len(&self) -> (r: usize)
        ensures
            r == 0,
    {
        0
    }
}

impl std::ops::BitAnd for IDLBitRange {
    type Output = Self;

    /// The ids in both sets.
    fn bitand(self, rhs: Self) -> (r: Self)
        ensures
            mask_result(self@, rhs@, r@, |x: u64, y: u64| x & y),
            ranges_wf(self@) && ranges_wf(rhs@) ==> forall|x: u64|
                #[trigger] range_holds(r@, x) <==> (range_holds(self@, x) && range_holds(rhs@, x)),
    {
        proof {
            use_type_invariant(&self);
            use_type_invariant(&rhs);
            assert(forall|x: u64, y: u64, c: u64| c < 64 ==> (has_bit(x & y, c) <==> (has_bit(x, c) && has_bit(y, c)))) by (bit_vector);
        }
        let r = if self.list.len() == 1 {
            let c = self.list[0];
            let r = rhs.bstbitand(&c);
            proof {
                if ranges_wf(self@) && ranges_wf(rhs@) {
                    assert(self@ =~= seq![c]);
                    assert forall|key: u64| #[trigger] mask_of(r@, key) == mask_of(self@, key) & mask_of(rhs@, key) by {
                        assert(mask_of(r@, key) == mask_of(seq![c], key) & mask_of(rhs@, key));
                    }
                }
            }
            r
        } else if rhs.list.len() == 1 {
            let c = rhs.list[0];
            let r = self.bstbitand(&c);
            proof {
                if ranges_wf(self@) && ranges_wf(rhs@) {
                    assert(rhs@ =~= seq![c]);
                    assert forall|key: u64| #[trigger] mask_of(r@, key) == mask_of(self@, key) & mask_of(rhs@, key) by {
                        let x = mask_of(self@, key);
                        let y = mask_of(rhs@, key);
                        assert(y & x == x & y) by (bit_vector);
                    }
                }
            }
            r
        } else {
            IDLBitRange { list: intersect_ranges(&self.list, &rhs.list) }
        };
        proof {
            lemma_mask_holds(self@, rhs@, r@, |x: u64, y: u64| x & y, |p: bool, q: bool| p && q);
        }
        r
    }
}

impl vstd::std_specs::ops::BitAndSpecImpl for IDLBitRange {
    /// The result is stated by the `ensures` of `bitand`.
    open spec fn obeys_bitand_spec() -> bool {
        false
    }

    open spec fn bitand_req(self, rhs: Self) -> bool {
        true
    }

    open spec fn bitand_spec(self, rhs: Self) -> Self {
        self
    }
}

impl std::ops::BitOr for IDLBitRange {
    type Output = Self;

    /// The ids in either set.
    fn bitor(self, rhs: Self) -> (r: Self)
        ensures
            mask_result(self@, rhs@, r@, |x: u64, y: u64| x | y),
            ranges_wf(self@) && ranges_wf(rhs@) ==> forall|x: u64|
                #[trigger] range_holds(r@, x) <==> (range_holds(self@, x) || range_holds(rhs@, x)),
    {
        proof {
            use_type_invariant(&self);
            use_type_invariant(&rhs);
            assert(forall|x: u64, y: u64, c: u64| c < 64 ==> (has_bit(x | y, c) <==> (has_bit(x, c) || has_bit(y, c)))) by (bit_vector);
        }
        let r = IDLBitRange { list: union_ranges(&self.list, &rhs.list) };
        proof {
            lemma_mask_holds(self@, rhs@, r@, |x: u64, y: u64| x | y, |p: bool, q: bool| p || q);
        }
        r
    }
}

impl vstd::std_specs::ops::BitOrSpecImpl for IDLBitRange {
    /// The result is stated by the `ensures` of `bitor`.
    open spec fn obeys_bitor_spec() -> bool {
        false
    }

    open spec fn bitor_req(self, rhs: Self) -> bool {
        true
    }

    open spec fn bitor_spec(self, rhs: Self) -> Self {
        self
    }
}

impl AndNot for IDLBitRange {
    type Output = Self;

    /// The ids of `self` that `rhs` lacks.
    fn andnot(self, rhs: Self) -> (r: Self)
        ensures
            mask_result(self@, rhs@, r@, |x: u64, y: u64| x & !y),
            ranges_wf(self@) && ranges_wf(rhs@) ==> forall|x: u64|
                #[trigger] range_holds(r@, x) <==> (range_holds(self@, x) && !range_holds(rhs@, x)),
    {
        proof {
            use_type_invariant(&self);
            use_type_invariant(&rhs);
            assert(forall|x: u64, y: u64, c: u64| c < 64 ==> (has_bit(x & !y, c) <==> (has_bit(x, c) && !has_bit(y, c)))) by (bit_vector);
        }
        let r = IDLBitRange { list: difference_ranges(&self.list, &rhs.list) };
        proof {
            lemma_mask_holds(self@, rhs@, r@, |x: u64, y: u64| x & !y, |p: bool, q: bool| p && !q);
        }
        r
    }
}

/// The ids of range `r` from bit `b` on, in increasing order.
pub open spec fn bits_from(r: IDLRange, b: u64) -> Seq<u64>
    decreases 64 - b,
{
    if b >= 64 {
        Seq::empty()
    } else if has_bit(r.mask, b) {
        seq![(r.range + b) as u64] + bits_from(r, (b + 1) as u64)
    } else {
        bits_from(r, (b + 1) as u64)
    }
}

/// The ids of `s`, range by range, each range in increasing order.
pub open spec fn ids_of(s: Seq<IDLRange>) -> Seq<u64>
    decreases s.len(),
{
    if s.len() == 0 {
        Seq::empty()
    } else {
        bits_from(s[0], 0) + ids_of(s.drop_first())
    }
}

impl IDLBitRange {
    /// The ids in order, one at a time.
    pub fn iter(&self) -> (r: IDLBitRangeIter<'_>)
        ensures
            r.remaining() == ids_of(self@),
    {
        proof {
            use_type_invariant(self);
            if self@.len() > 0 {
                assert(self@.subrange(1, self@.len() as int) =~= self@.drop_first());
            }
        }
        IDLBitRangeIter { list: &self.list, idx: 0, curbit: 0 }
    }
}

/// Walks the ids of an `IDLBitRange` in order.
pub struct IDLBitRangeIter<'a> {
    list: &'a Vec<IDLRange>,
    /// The range being walked.
    idx: usize,
    /// The next bit of that range to look at.
    curbit: u64,
}

impl<'a> IDLBitRangeIter<'a> {
    #[verifier::type_invariant]
    spec fn inv(self) -> bool {
        &&& self.idx <= self.list@.len()
        &&& self.curbit <= 64
        &&& aligned(self.list@)
    }

    /// The ids not yet handed out.
    pub closed spec fn remaining(&self) -> Seq<u64> {
        if self.idx < self.list@.len() {
            bits_from(self.list@[self.idx as int], self.curbit) + ids_of(
                self.list@.subrange(self.idx + 1, self.list@.len() as int),
            )
        } else {
            Seq::empty()
        }
    }

    pub fn next(&mut self) -> (r: Option<u64>)
        ensures
            r is Some ==> old(self).remaining() == seq![r->0] + final(self).remaining(),
            r is None ==> old(self).remaining().len() == 0 && final(self).remaining() == old(
                self,
            ).remaining(),
    {
        proof {
            use_type_invariant(&*self);
        }
        while self.idx < self.list.len()
            invariant
                self.idx <= self.list@.len(),
                self.curbit <= 64,
                aligned(self.list@),
                self.list == old(self).list,
                self.remaining() == old(self).remaining(),
            decreases self.list@.len() - self.idx,
        {
            let range = self.list[self.idx];
            let ghost i0 = self.idx;
            while self.curbit < 64
                invariant
                    self.idx == i0,
                    self.idx < self.list@.len(),
                    self.curbit <= 64,
                    aligned(self.list@),
                    range == self.list@[self.idx as int],
                    self.list == old(self).list,
                    self.remaining() == old(self).remaining(),
                decreases 64 - self.curbit,
            {
                let m: u64 = 1u64 << self.curbit;
                let candidate: u64 = range.mask & m;
                if candidate > 0 {
                    let b = self.curbit;
                    assert(range.range % 64 == 0);
                    assert(range.range + b <= u64::MAX) by {
                        assert(range.range == 64 * (range.range / 64));
                        assert(range.range / 64 <= u64::MAX / 64);
                    }
                    let result = b + range.range;
                    self.curbit = b + 1;
                    return Some(result);
                }
                self.curbit = self.curbit + 1;
            }
            let ghost tail = self.list@.subrange(self.idx + 1, self.list@.len() as int);
            self.idx = self.idx + 1;
            self.curbit = 0;
            proof {
                if self.idx < self.list@.len() {
                    assert(tail.drop_first() =~= self.list@.subrange(self.idx + 1, self.list@.len() as int));
                    assert(tail[0] == self.list@[self.idx as int]);
                }
                assert(bits_from(range, 64) =~= Seq::<u64>::empty());
            }
        }
        None
    }
}

} // verus!
