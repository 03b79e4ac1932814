//! Sets of ids as sorted lists: one plain, one compressed into 64-bit ranges.
use vstd::prelude::*;

verus! {

/// `s` lists a set of ids in strictly increasing order.
pub open spec fn sorted_set(s: Seq<u64>) -> bool {
    forall|i: int, j: int| 0 <= i < j < s.len() ==> s[i] < s[j]
}

/// A sorted list is determined by the ids it holds: two sorted lists with
/// the same ids are the same list. So each set operation below, whose result
/// is sorted and holds the ids stated, has exactly one possible result.
pub proof fn lemma_sorted_set_unique(a: Seq<u64>, b: Seq<u64>)
    requires
        sorted_set(a),
        sorted_set(b),
        forall|x: u64| a.contains(x) <==> b.contains(x),
    ensures
        a == b,
    decreases a.len(),
{
    if a.len() == 0 {
        if b.len() > 0 {
            assert(b.contains(b[0]));
        }
        assert(a =~= b);
    } else {
        assert(a.contains(a[0]));
        assert(b.len() > 0);
        assert(b.contains(b[0]));
        let ka = choose|k: int| 0 <= k < a.len() && a[k] == b[0];
        let kb = choose|k: int| 0 <= k < b.len() && b[k] == a[0];
        if ka > 0 {
            assert(a[0] < a[ka]);
        }
        if kb > 0 {
            assert(b[0] < b[kb]);
        }
        assert(a[0] == b[0]);
        let a1 = a.drop_first();
        let b1 = b.drop_first();
        assert forall|i: int, j: int| 0 <= i < j < a1.len() implies a1[i] < a1[j] by {
            assert(a[i + 1] < a[j + 1]);
        }
        assert forall|i: int, j: int| 0 <= i < j < b1.len() implies b1[i] < b1[j] by {
            assert(b[i + 1] < b[j + 1]);
        }
        assert forall|x: u64| a1.contains(x) <==> b1.contains(x) by {
            if a1.contains(x) {
                let k = choose|k: int| 0 <= k < a1.len() && a1[k] == x;
                assert(a[k + 1] == x);
                assert(a[0] < a[k + 1]);
                assert(b.contains(x));
                let m = choose|m: int| 0 <= m < b.len() && b[m] == x;
                assert(m != 0);
                assert(b1[m - 1] == x);
            }
            if b1.contains(x) {
                let k = choose|k: int| 0 <= k < b1.len() && b1[k] == x;
                assert(b[k + 1] == x);
                assert(b[0] < b[k + 1]);
                assert(a.contains(x));
                let m = choose|m: int| 0 <= m < a.len() && a[m] == x;
                assert(m != 0);
                assert(a1[m - 1] == x);
            }
        }
        lemma_sorted_set_unique(a1, b1);
        assert(a =~= seq![a[0]] + a1);
        assert(b =~= seq![b[0]] + b1);
    }
}

/// Set difference: what is in `self` and not in `rhs`.
pub trait AndNot<RHS = Self> {
    type Output;

    fn andnot(self, rhs: RHS) -> Self::Output;
}

/// A list of ids that grows at its end.
pub trait IDL {
    fn push_id(&mut self, value: u64);

    fn len(&self) -> usize;
}

/// A set of ids kept as a plain list.
#[derive(Debug, PartialEq)]
pub struct IDLSimple(Vec<u64>);

impl View for IDLSimple {
    type V = Seq<u64>;

    closed spec fn view(&self) -> Seq<u64> {
        self.0@
    }
}

/// Whether the sorted list `v` holds `x`, by binary search. On a list that is
/// not sorted, `true` still means that `x` is there.
fn search_sorted(v: &Vec<u64>, x: u64) -> (r: bool)
    ensures
        r ==> v@.contains(x),
        sorted_set(v@) ==> r == v@.contains(x),
{
    let mut lo: usize = 0;
    let mut hi: usize = v.len();
    while lo < hi
        invariant
            lo <= hi <= v@.len(),
            sorted_set(v@) ==> forall|k: int| 0 <= k < lo ==> v@[k] < x,
            sorted_set(v@) ==> forall|k: int| hi <= k < v@.len() ==> v@[k] > x,
        decreases hi - lo,
    {
        let mid = lo + (hi - lo) / 2;
        let m = v[mid];
        if m == x {
            assert(v@[mid as int] == x);
            return true;
        } else if m < x {
            lo = mid + 1;
        } else {
            hi = mid;
        }
    }
    false
}

/// The ids that `a` and `b` share, in order.
fn intersect_sorted(a: &Vec<u64>, b: &Vec<u64>) -> (r: Vec<u64>)
    ensures
        sorted_set(a@) && sorted_set(b@) ==> sorted_set(r@) && forall|x: u64|
            r@.contains(x) <==> (a@.contains(x) && b@.contains(x)),
{
    let ghost ok = sorted_set(a@) && sorted_set(b@);
    let mut r: Vec<u64> = Vec::new();
    let mut i: usize = 0;
    let mut j: usize = 0;
    while i < a.len() && j < b.len()
        invariant
            i <= a@.len(),
            j <= b@.len(),
            ok == (sorted_set(a@) && sorted_set(b@)),
            ok ==> sorted_set(r@),
            ok ==> forall|x: u64|
                r@.contains(x) <==> (a@.subrange(0, i as int).contains(x) && b@.contains(x)),
            ok ==> forall|k: int| 0 <= k < r@.len() && i < a@.len() ==> r@[k] < a@[i as int],
            ok ==> forall|k: int| 0 <= k < j && i < a@.len() ==> b@[k] < a@[i as int],
            ok ==> forall|k: int| 0 <= k < i && j < b@.len() ==> a@[k] < b@[j as int],
        decreases a@.len() + b@.len() - i - j,
    {
        let l = a[i];
        let x = b[j];
        let ghost r0 = r@;
        if l == x {
            r.push(l);
            proof {
                if ok {
                    let taken = a@.subrange(0, i as int);
                    let taken_next = a@.subrange(0, i + 1);
                    assert(taken_next =~= taken.push(l));
                    assert(r@ =~= r0.push(l));
                    assert(b@[j as int] == l);
                    assert forall|y: u64| r@.contains(y) <==> (taken_next.contains(y) && b@.contains(y)) by {
                        if y == l {
                            assert(r@[r@.len() - 1] == l);
                            assert(taken_next[i as int] == l);
                        }
                        if r@.contains(y) && y != l {
                            let k = choose|k: int| 0 <= k < r@.len() && r@[k] == y;
                            assert(r0[k] == y);
                            assert(r0.contains(y));
                            assert(taken.contains(y));
                            let m = choose|m: int| 0 <= m < taken.len() && taken[m] == y;
                            assert(taken_next[m] == y);
                        }
                        if taken_next.contains(y) && b@.contains(y) && y != l {
                            let k = choose|k: int| 0 <= k < taken_next.len() && taken_next[k] == y;
                            assert(taken[k] == y);
                            assert(r0.contains(y));
                            let m = choose|m: int| 0 <= m < r0.len() && r0[m] == y;
                            assert(r@[m] == y);
                        }
                    }
                }
            }
            i += 1;
            j += 1;
        } else if l < x {
            proof {
                if ok {
                    let taken = a@.subrange(0, i as int);
                    let taken_next = a@.subrange(0, i + 1);
                    assert(taken_next =~= taken.push(l));
                    assert forall|m: int| 0 <= m < b@.len() implies b@[m] != l by {
                        if m > j {
                            assert(b@[j as int] < b@[m]);
                        }
                    }
                    assert forall|y: u64| r@.contains(y) <==> (taken_next.contains(y) && b@.contains(y)) by {
                        if taken_next.contains(y) && b@.contains(y) {
                            let k = choose|k: int| 0 <= k < taken_next.len() && taken_next[k] == y;
                            assert(y != l);
                            assert(taken[k] == y);
                        }
                    }
                }
            }
            i += 1;
        } else {
            j += 1;
        }
    }
    proof {
        if ok {
            let taken = a@.subrange(0, i as int);
            assert forall|y: u64| r@.contains(y) <==> (a@.contains(y) && b@.contains(y)) by {
                if a@.contains(y) && b@.contains(y) {
                    let k = choose|k: int| 0 <= k < a@.len() && a@[k] == y;
                    let m = choose|m: int| 0 <= m < b@.len() && b@[m] == y;
                    if k >= i {
                        assert(j == b@.len());
                        if k > i {
                            assert(a@[i as int] < a@[k]);
                        }
                        assert(b@[m] < a@[i as int]);
                    }
                    assert(taken[k] == y);
                }
                if r@.contains(y) {
                    let k = choose|k: int| 0 <= k < taken.len() && taken[k] == y;
                    assert(a@[k] == y);
                }
            }
        }
    }
    r
}

/// The ids of `a` and of `b`, in order.
fn union_sorted(a: &Vec<u64>, b: &Vec<u64>) -> (r: Vec<u64>)
    ensures
        sorted_set(a@) && sorted_set(b@) ==> sorted_set(r@) && forall|x: u64|
            r@.contains(x) <==> (a@.contains(x) || b@.contains(x)),
{
    let ghost ok = sorted_set(a@) && sorted_set(b@);
    let mut r: Vec<u64> = Vec::new();
    let mut i: usize = 0;
    let mut j: usize = 0;
    while i < a.len() && j < b.len()
        invariant
            i <= a@.len(),
            j <= b@.len(),
            ok == (sorted_set(a@) && sorted_set(b@)),
            ok ==> sorted_set(r@),
            ok ==> forall|x: u64|
                r@.contains(x) <==> (a@.subrange(0, i as int).contains(x) || b@.subrange(
                    0,
                    j as int,
                ).contains(x)),
            ok ==> forall|k: int| 0 <= k < r@.len() && i < a@.len() ==> r@[k] < a@[i as int],
            ok ==> forall|k: int| 0 <= k < r@.len() && j < b@.len() ==> r@[k] < b@[j as int],
        decreases a@.len() + b@.len() - i - j,
    {
        let l = a[i];
        let x = b[j];
        let ghost (r0, i0, j0) = (r@, i as int, j as int);
        let n = if l == x {
            i += 1;
            j += 1;
            l
        } else if l < x {
            i += 1;
            l
        } else {
            j += 1;
            x
        };
        r.push(n);
        proof {
            if ok {
                lemma_merge_step(a@, b@, r0, i0, j0, i as int, j as int, n);
            }
        }
    }
    while i < a.len()
        invariant
            i <= a@.len(),
            j <= b@.len(),
            i < a@.len() ==> j == b@.len(),
            ok == (sorted_set(a@) && sorted_set(b@)),
            ok ==> sorted_set(r@),
            ok ==> forall|x: u64|
                r@.contains(x) <==> (a@.subrange(0, i as int).contains(x) || b@.subrange(
                    0,
                    j as int,
                ).contains(x)),
            ok ==> forall|k: int| 0 <= k < r@.len() && i < a@.len() ==> r@[k] < a@[i as int],
            ok ==> forall|k: int| 0 <= k < r@.len() && j < b@.len() ==> r@[k] < b@[j as int],
        decreases a@.len() - i,
    {
        let l = a[i];
        let ghost (r0, i0, j0) = (r@, i as int, j as int);
        i += 1;
        r.push(l);
        proof {
            if ok {
                lemma_merge_step(a@, b@, r0, i0, j0, i as int, j as int, l);
            }
        }
    }
    while j < b.len()
        invariant
            i == a@.len(),
            j <= b@.len(),
            ok == (sorted_set(a@) && sorted_set(b@)),
            ok ==> sorted_set(r@),
            ok ==> forall|x: u64|
                r@.contains(x) <==> (a@.subrange(0, i as int).contains(x) || b@.subrange(
                    0,
                    j as int,
                ).contains(x)),
            ok ==> forall|k: int| 0 <= k < r@.len() && j < b@.len() ==> r@[k] < b@[j as int],
        decreases b@.len() - j,
    {
        let x = b[j];
        let ghost (r0, i0, j0) = (r@, i as int, j as int);
        j += 1;
        r.push(x);
        proof {
            if ok {
                lemma_merge_step(a@, b@, r0, i0, j0, i as int, j as int, x);
            }
        }
    }
    proof {
        assert(a@.subrange(0, i as int) =~= a@);
        assert(b@.subrange(0, j as int) =~= b@);
    }
    r
}

/// One step of a merge that takes `n` from the heads of `a` and `b`: the
/// ids taken so far are the prefixes consumed, in order, below both heads.
proof fn lemma_merge_step(
    a: Seq<u64>,
    b: Seq<u64>,
    r0: Seq<u64>,
    i0: int,
    j0: int,
    i: int,
    j: int,
    n: u64,
)
    requires
        sorted_set(a),
        sorted_set(b),
        sorted_set(r0),
        0 <= i0 <= i <= a.len(),
        0 <= j0 <= j <= b.len(),
        i == i0 || i == i0 + 1,
        j == j0 || j == j0 + 1,
        i == i0 + 1 ==> a[i0] == n,
        j == j0 + 1 ==> b[j0] == n,
        i == i0 ==> (j == j0 + 1 && (i0 < a.len() ==> n < a[i0])),
        j == j0 ==> (i == i0 + 1 && (j0 < b.len() ==> n < b[j0])),
        forall|x: u64|
            r0.contains(x) <==> (a.subrange(0, i0).contains(x) || b.subrange(0, j0).contains(x)),
        forall|k: int| 0 <= k < r0.len() && i0 < a.len() ==> r0[k] < a[i0],
        forall|k: int| 0 <= k < r0.len() && j0 < b.len() ==> r0[k] < b[j0],
    ensures
        sorted_set(r0.push(n)),
        forall|x: u64|
            r0.push(n).contains(x) <==> (a.subrange(0, i).contains(x) || b.subrange(0, j).contains(
                x,
            )),
        forall|k: int| 0 <= k < r0.len() + 1 && i < a.len() ==> r0.push(n)[k] < a[i],
        forall|k: int| 0 <= k < r0.len() + 1 && j < b.len() ==> r0.push(n)[k] < b[j],
{
    let r = r0.push(n);
    let pa0 = a.subrange(0, i0);
    let pa = a.subrange(0, i);
    let pb0 = b.subrange(0, j0);
    let pb = b.subrange(0, j);
    assert forall|k: int| 0 <= k < r0.len() implies r0[k] < n by {
        if i == i0 + 1 {
        } else {
        }
    }
    assert forall|x: u64| r.contains(x) <==> (pa.contains(x) || pb.contains(x)) by {
        if x == n {
            assert(r[r0.len() as int] == n);
            if i == i0 + 1 {
                assert(pa[i0] == n);
            } else {
                assert(pb[j0] == n);
            }
        } else {
            if r.contains(x) {
                let k = choose|k: int| 0 <= k < r.len() && r[k] == x;
                assert(r0[k] == x);
                assert(r0.contains(x));
                if pa0.contains(x) {
                    let m = choose|m: int| 0 <= m < pa0.len() && pa0[m] == x;
                    assert(pa[m] == x);
                } else {
                    let m = choose|m: int| 0 <= m < pb0.len() && pb0[m] == x;
                    assert(pb[m] == x);
                }
            }
            if pa.contains(x) {
                let m = choose|m: int| 0 <= m < pa.len() && pa[m] == x;
                assert(m < i0);
                assert(pa0[m] == x);
                assert(r0.contains(x));
                let k = choose|k: int| 0 <= k < r0.len() && r0[k] == x;
                assert(r[k] == x);
            }
            if pb.contains(x) {
                let m = choose|m: int| 0 <= m < pb.len() && pb[m] == x;
                assert(m < j0);
                assert(pb0[m] == x);
                assert(r0.contains(x));
                let k = choose|k: int| 0 <= k < r0.len() && r0[k] == x;
                assert(r[k] == x);
            }
        }
    }
    assert forall|k: int| 0 <= k < r0.len() + 1 && i < a.len() implies r[k] < a[i] by {
        if i == i0 + 1 {
            assert(a[i0] < a[i]);
        }
    }
    assert forall|k: int| 0 <= k < r0.len() + 1 && j < b.len() implies r[k] < b[j] by {
        if j == j0 + 1 {
            assert(b[j0] < b[j]);
        }
    }
}

/// The ids of `a` that are not in `b`, in order.
fn difference_sorted(a: &Vec<u64>, b: &Vec<u64>) -> (r: Vec<u64>)
    ensures
        sorted_set(a@) && sorted_set(b@) ==> sorted_set(r@) && forall|x: u64|
            r@.contains(x) <==> (a@.contains(x) && !b@.contains(x)),
{
    let ghost ok = sorted_set(a@) && sorted_set(b@);
    let mut r: Vec<u64> = Vec::new();
    let mut i: usize = 0;
    let mut j: usize = 0;
    while i < a.len() && j < b.len()
        invariant
            i <= a@.len(),
            j <= b@.len(),
            ok == (sorted_set(a@) && sorted_set(b@)),
            ok ==> sorted_set(r@),
            ok ==> forall|x: u64|
                r@.contains(x) <==> (a@.subrange(0, i as int).contains(x) && !b@.contains(x)),
            ok ==> forall|k: int| 0 <= k < r@.len() && i < a@.len() ==> r@[k] < a@[i as int],
            ok ==> forall|k: int| 0 <= k < j && i < a@.len() ==> b@[k] < a@[i as int],
        decreases a@.len() + b@.len() - i - j,
    {
        let l = a[i];
        let x = b[j];
        let ghost (r0, i0) = (r@, i as int);
        if l < x {
            r.push(l);
            i += 1;
            proof {
                if ok {
                    assert forall|m: int| 0 <= m < b@.len() implies b@[m] != l by {
                        if m > j {
                            assert(b@[j as int] < b@[m]);
                        }
                    }
                    lemma_difference_take(a@, b@, r0, r@, i0, true);
                }
            }
        } else if l == x {
            i += 1;
            j += 1;
            proof {
                if ok {
                    assert(b@[j - 1] == l);
                    lemma_difference_take(a@, b@, r0, r@, i0, false);
                }
            }
        } else {
            j += 1;
        }
    }
    while i < a.len()
        invariant
            i <= a@.len(),
            j == b@.len() || i == a@.len(),
            ok == (sorted_set(a@) && sorted_set(b@)),
            ok ==> sorted_set(r@),
            ok ==> forall|x: u64|
                r@.contains(x) <==> (a@.subrange(0, i as int).contains(x) && !b@.contains(x)),
            ok ==> forall|k: int| 0 <= k < r@.len() && i < a@.len() ==> r@[k] < a@[i as int],
            ok ==> forall|k: int| 0 <= k < j && i < a@.len() ==> b@[k] < a@[i as int],
        decreases a@.len() - i,
    {
        let l = a[i];
        let ghost (r0, i0) = (r@, i as int);
        r.push(l);
        i += 1;
        proof {
            if ok {
                assert forall|m: int| 0 <= m < b@.len() implies b@[m] != l by {}
                lemma_difference_take(a@, b@, r0, r@, i0, true);
            }
        }
    }
    proof {
        assert(a@.subrange(0, i as int) =~= a@);
    }
    r
}

/// Taking the head `a[i0]` of a difference: it joins the result exactly when
/// `b` lacks it.
proof fn lemma_difference_take(
    a: Seq<u64>,
    b: Seq<u64>,
    r0: Seq<u64>,
    r: Seq<u64>,
    i0: int,
    keep: bool,
)
    requires
        r == (if keep {
            r0.push(a[i0])
        } else {
            r0
        }),
        sorted_set(a),
        sorted_set(r0),
        0 <= i0 < a.len(),
        keep == !b.contains(a[i0]),
        forall|x: u64| r0.contains(x) <==> (a.subrange(0, i0).contains(x) && !b.contains(x)),
        forall|k: int| 0 <= k < r0.len() ==> r0[k] < a[i0],
    ensures
        sorted_set(r),
        forall|x: u64| r.contains(x) <==> (a.subrange(0, i0 + 1).contains(x) && !b.contains(x)),
        forall|k: int| 0 <= k < r.len() && i0 + 1 < a.len() ==> r[k] < a[i0 + 1],
{
    let taken = a.subrange(0, i0);
    let taken_next = a.subrange(0, i0 + 1);
    let n = a[i0];
    assert(taken_next =~= taken.push(n));
    assert forall|x: u64| r.contains(x) <==> (taken_next.contains(x) && !b.contains(x)) by {
        if x == n {
            assert(taken_next[i0] == n);
            if keep {
                assert(r[r0.len() as int] == n);
            } else {
                assert(!r.contains(x));
            }
        } else {
            if r.contains(x) {
                let k = choose|k: int| 0 <= k < r.len() && r[k] == x;
                assert(r0[k] == x);
                assert(r0.contains(x));
                let m = choose|m: int| 0 <= m < taken.len() && taken[m] == x;
                assert(taken_next[m] == x);
            }
            if taken_next.contains(x) && !b.contains(x) {
                let m = choose|m: int| 0 <= m < taken_next.len() && taken_next[m] == x;
                assert(taken[m] == x);
                assert(r0.contains(x));
                let k = choose|k: int| 0 <= k < r0.len() && r0[k] == x;
                assert(r[k] == x);
            }
        }
    }
    assert forall|k: int| 0 <= k < r.len() && i0 + 1 < a.len() implies r[k] < a[i0 + 1] by {
        assert(a[i0] < a[i0 + 1]);
    }
}

/// Both lists sorted, `r` lists exactly the ids that `keep` selects.
pub open spec fn set_result(a: Seq<u64>, b: Seq<u64>, r: Seq<u64>, keep: spec_fn(bool, bool) -> bool) -> bool {
    sorted_set(a) && sorted_set(b) ==> sorted_set(r) && forall|x: u64|
        r.contains(x) <==> keep(a.contains(x), b.contains(x))
}

impl IDLSimple {
    pub fn new() -> (r: Self)
        ensures
            r@ == Seq::<u64>::empty(),
    {
        IDLSimple(Vec::with_capacity(128))
    }

    pub fn from_u64(id: u64) -> (r: Self)
        ensures
            r@ == seq![id],
    {
        let mut new = IDLSimple::new();
        new.push_id(id);
        new
    }

    /// The list of `ids`, in the order given.
    pub fn from_iter(ids: Vec<u64>) -> (r: Self)
        ensures
            r@ == ids@,
    {
        IDLSimple(ids)
    }

    /// `candidate` alone if this sorted list holds it, else nothing.
    fn bstbitand(&self, candidate: &u64) -> (r: Self)
        ensures
            r@ == seq![*candidate] || r@.len() == 0,
            r@.len() == 1 ==> self@.contains(*candidate),
            sorted_set(self@) ==> (r@.len() == 1 <==> self@.contains(*candidate)),
    {
        let mut result = IDLSimple::new();
        if search_sorted(&self.0, *candidate) {
            result.0.push(*candidate);
        }
        result
    }

    /// The ids in order, one at a time.
    pub fn iter(&self) -> (r: IDLSimpleIter<'_>)
        ensures
            r.remaining() == self@,
    {
        IDLSimpleIter { list: &self.0, pos: 0 }
    }
}

impl IDL for IDLSimple {
    fn push_id(&mut self, value: u64)
        ensures
            final(self)@ == old(self)@.push(value),
    {
        self.0.push(value);
    }

    fn len(&self) -> (r: usize)
        ensures
            r == self@.len(),
    {
        self.0.len()
    }
}

/// Walks the ids of an `IDLSimple` in order.
pub struct IDLSimpleIter<'b> {
    list: &'b Vec<u64>,
    pos: usize,
}

impl<'b> IDLSimpleIter<'b> {
    #[verifier::type_invariant]
    spec fn inv(self) -> bool {
        self.pos <= self.list@.len()
    }

    /// The ids not yet handed out.
    pub closed spec fn remaining(&self) -> Seq<u64> {
        self.list@.subrange(self.pos as int, self.list@.len() as int)
    }

    pub fn next(&mut self) -> (r: Option<u64>)
        ensures
            r is Some ==> old(self).remaining() == seq![r->0] + final(self).remaining(),
            r is None ==> old(self).remaining().len() == 0 && final(self).remaining() == old(
                self,
            ).remaining(),
    {
        proof {
            use_type_invariant(&*self);
        }
        if self.pos < self.list.len() {
            let id = self.list[self.pos];
            let ghost before = self.remaining();
            self.pos = self.pos + 1;
            assert(before =~= seq![id] + self.remaining());
            Some(id)
        } else {
            None
        }
    }
}

/// `[c]` meets `b` in `[c]` when `b` holds `c`, and in nothing otherwise.
proof fn lemma_single_meet(c: u64, b: Seq<u64>, r: Seq<u64>)
    requires
        r == seq![c] || r.len() == 0,
        r.len() == 1 ==> b.contains(c),
        sorted_set(b) ==> (r.len() == 1 <==> b.contains(c)),
    ensures
        set_result(seq![c], b, r, |x: bool, y: bool| x && y),
        set_result(b, seq![c], r, |x: bool, y: bool| x && y),
{
    if sorted_set(b) {
        assert forall|x: u64| r.contains(x) <==> (seq![c].contains(x) && b.contains(x)) by {
            if r.contains(x) {
                assert(r[0] == c);
            }
            if seq![c].contains(x) {
                assert(seq![c][0] == c);
            }
            if x == c && b.contains(x) {
                assert(r[0] == c);
            }
        }
    }
}

impl std::ops::BitAnd for IDLSimple {
    type Output = Self;

    /// The ids in both sets.
    fn bitand(self, other: Self) -> (r: Self)
        ensures
            set_result(self@, other@, r@, |x: bool, y: bool| x && y),
    {
        if self.0.len() == 1 {
            let r = other.bstbitand(&self.0[0]);
            proof {
                assert(self@ =~= seq![self@[0]]);
                lemma_single_meet(self@[0], other@, r@);
            }
            return r;
        } else if other.0.len() == 1 {
            let r = self.bstbitand(&other.0[0]);
            proof {
                assert(other@ =~= seq![other@[0]]);
                lemma_single_meet(other@[0], self@, r@);
            }
            return r;
        }
        IDLSimple(intersect_sorted(&self.0, &other.0))
    }
}

impl vstd::std_specs::ops::BitAndSpecImpl for IDLSimple {
    /// The result is stated by the `ensures` of `bitand`.
    open spec fn obeys_bitand_spec() -> bool {
        false
    }

    open spec fn bitand_req(self, other: Self) -> bool {
        true
    }

    open spec fn bitand_spec(self, other: Self) -> Self {
        self
    }
}

impl std::ops::BitOr for IDLSimple {
    type Output = Self;

    /// The ids in either set.
    fn bitor(self, other: Self) -> (r: Self)
        ensures
            set_result(self@, other@, r@, |x: bool, y: bool| x || y),
    {
        IDLSimple(union_sorted(&self.0, &other.0))
    }
}

impl vstd::std_specs::ops::BitOrSpecImpl for IDLSimple {
    /// The result is stated by the `ensures` of `bitor`.
    open spec fn obeys_bitor_spec() -> bool {
        false
    }

    open spec fn bitor_req(self, other: Self) -> bool {
        true
    }

    open spec fn bitor_spec(self, other: Self) -> Self {
        self
    }
}

impl AndNot for IDLSimple {
    type Output = Self;

    /// The ids of `self` that `other` lacks.
    fn andnot(self, other: Self) -> (r: Self)
        ensures
            set_result(self@, other@, r@, |x: bool, y: bool| x && !y),
    {
        IDLSimple(difference_sorted(&self.0, &other.0))
    }
}

} // verus!
