use vstd::prelude::*;

use crate::sketch::SketchError;

verus! {

/// Every element of `s` is smaller than every later one.
pub open spec fn strictly_sorted(s: Seq<u32>) -> bool {
    forall|i: int, j: int| 0 <= i < j < s.len() ==> s[i] < s[j]
}

/// Every element of `s` is at most every later one.
pub open spec fn sorted_range(s: Seq<u32>, lo: int, hi: int) -> bool {
    forall|i: int, j: int| lo <= i < j < hi ==> s[i] <= s[j]
}

/// Some value occurs at two different positions of `s`.
pub open spec fn has_duplicate(s: Seq<u32>) -> bool {
    exists|i: int, j: int| 0 <= i < s.len() && 0 <= j < s.len() && i != j && s[i] == s[j]
}

/// `v` occurs at two different positions of `s`, and no value that does so
/// is smaller than `v`.
pub open spec fn is_min_duplicate(s: Seq<u32>, v: u32) -> bool {
    &&& exists|i: int, j: int|
        0 <= i < s.len() && 0 <= j < s.len() && i != j && s[i] == v && s[j] == v
    &&& forall|i: int, j: int|
        0 <= i < s.len() && 0 <= j < s.len() && i != j && s[i] == s[j] ==> v <= s[i]
}

/// `a` and `b` hold the same values.
pub open spec fn same_elements(a: Seq<u32>, b: Seq<u32>) -> bool {
    forall|x: u32| a.contains(x) <==> b.contains(x)
}

/// Number of elements of `a` that also occur in `b`.
pub open spec fn common_count(a: Seq<u32>, b: Seq<u32>) -> nat
    decreases a.len(),
{
    if a.len() == 0 {
        0
    } else {
        common_count(a.drop_last(), b) + if b.contains(a.last()) {
            1nat
        } else {
            0nat
        }
    }
}

/// A set of distinct `u32` values kept in ascending order.
///
/// Implementations keep their elements strictly ascending; `iter` states it.
pub trait Sketch: Sized + Copy {
    /// The elements, in ascending order.
    spec fn elements(&self) -> Seq<u32>;

    /// Number of elements in the sketch.
    fn len(&self) -> (r: usize)
        ensures
            r == self.elements().len(),
    ;

    /// Whether the sketch holds no element.
    fn is_empty(&self) -> (r: bool)
        ensures
            r == (self.elements().len() == 0),
    ;

    /// The elements, in ascending order.
    fn iter(&self) -> (r: Vec<u32>)
        ensures
            r@ == self.elements(),
            strictly_sorted(r@),
    ;

    /// The elements as a slice, in ascending order.
    fn as_slice(&self) -> (r: &[u32])
        ensures
            r@ == self.elements(),
    ;

    /// Number of elements present in both sketches.
    fn intersection_size(&self, other: &Self) -> (r: usize)
        ensures
            r == common_count(self.elements(), other.elements()),
    ;

    /// Whether the sketch holds `value`.
    fn contains(&self, value: u32) -> (r: bool)
        ensures
            r == self.elements().contains(value),
    ;
}

/// A sketch of exactly `N` distinct values, kept in ascending order.
#[derive(Debug, Clone, Copy, PartialEq, Eq, Hash)]
pub struct FixedSketch<const N: usize> {
    items: [u32; N],
}

impl<const N: usize> View for FixedSketch<N> {
    type V = Seq<u32>;

    closed spec fn view(&self) -> Seq<u32> {
        self.items@
    }
}

impl<const N: usize> FixedSketch<N> {
    #[verifier::type_invariant]
    spec fn well_formed(self) -> bool {
        strictly_sorted(self.items@)
    }

    /// Builds a sketch from `items`: sorts them and rejects an empty input or
    /// one that holds a value twice (reporting the smallest such value).
    pub fn new(items: [u32; N]) -> (r: Result<Self, SketchError>)
        ensures
            match r {
                Err(SketchError::EmptySketch) => N == 0,
                Err(SketchError::DuplicateElement(v)) => {
                    &&& N > 0
                    &&& has_duplicate(items@)
                    &&& is_min_duplicate(items@, v)
                },
                Ok(s) => {
                    &&& N > 0
                    &&& !has_duplicate(items@)
                    &&& s@.len() == N
                    &&& strictly_sorted(s@)
                    &&& same_elements(s@, items@)
                },
            },
    {
        if N == 0 {
            return Err(SketchError::EmptySketch);
        }
        let ghost orig = items@;
        let mut a = items;
        // `perm` sends a position of `a` to the position of `orig` it came
        // from, and `inv` is its inverse.
        let ghost mut perm: Seq<int> = Seq::new(N as nat, |k: int| k);
        let ghost mut inv: Seq<int> = Seq::new(N as nat, |k: int| k);
        let mut i: usize = 1;
        while i < N
            invariant
                1 <= i <= N,
                a@.len() == N,
                orig.len() == N,
                sorted_range(a@, 0, i as int),
                perm.len() == N,
                inv.len() == N,
                forall|k: int| 0 <= k < N ==> 0 <= #[trigger] perm[k] < N,
                forall|k: int| 0 <= k < N ==> 0 <= #[trigger] inv[k] < N,
                forall|k: int| 0 <= k < N ==> a@[k] == orig[#[trigger] perm[k]],
                forall|k: int| 0 <= k < N ==> #[trigger] inv[perm[k]] == k,
                forall|m: int| 0 <= m < N ==> #[trigger] perm[inv[m]] == m,
            decreases N - i,
        {
            let mut j: usize = i;
            while j > 0 && a[j - 1] > a[j]
                invariant
                    0 <= j <= i < N,
                    a@.len() == N,
                    orig.len() == N,
                    sorted_range(a@, 0, j as int),
                    sorted_range(a@, j as int, i + 1),
                    forall|k1: int, k2: int|
                        0 <= k1 < j < k2 <= i ==> #[trigger] a@[k1] <= #[trigger] a@[k2],
                    perm.len() == N,
                    inv.len() == N,
                    forall|k: int| 0 <= k < N ==> 0 <= #[trigger] perm[k] < N,
                    forall|k: int| 0 <= k < N ==> 0 <= #[trigger] inv[k] < N,
                    forall|k: int| 0 <= k < N ==> a@[k] == orig[#[trigger] perm[k]],
                    forall|k: int| 0 <= k < N ==> #[trigger] inv[perm[k]] == k,
                    forall|m: int| 0 <= m < N ==> #[trigger] perm[inv[m]] == m,
                decreases j,
            {
                let x = a[j - 1];
                let y = a[j];
                a[j - 1] = y;
                a[j] = x;
                proof {
                    let pa = perm[j - 1];
                    let pb = perm[j as int];
                    let ghost old_perm = perm;
                    let ghost old_inv = inv;
                    assert(old_inv[pa] == j - 1 && old_inv[pb] == j as int);
                    perm = perm.update(j - 1, pb).update(j as int, pa);
                    inv = inv.update(pb, j - 1).update(pa, j as int);
                    assert forall|k: int| 0 <= k < N implies #[trigger] inv[perm[k]] == k by {
                        if k != j - 1 && k != j {
                            assert(old_inv[old_perm[k]] == k);
                            assert(perm[k] == old_perm[k]);
                            assert(old_perm[k] != pa && old_perm[k] != pb);
                        }
                    }
                    assert forall|m: int| 0 <= m < N implies #[trigger] perm[inv[m]] == m by {
                        if m != pa && m != pb {
                            assert(old_perm[old_inv[m]] == m);
                            assert(old_inv[m] != j - 1 && old_inv[m] != j);
                        }
                    }
                }
                j = j - 1;
            }
            i = i + 1;
        }
        assert(sorted_range(a@, 0, N as int));
        // Look for two equal neighbours.
        let mut k: usize = 0;
        while k + 1 < N
            invariant
                0 <= k < N,
                a@.len() == N,
                orig == items@,
                orig.len() == N,
                sorted_range(a@, 0, N as int),
                perm.len() == N,
                inv.len() == N,
                forall|t: int| 0 <= t < N ==> 0 <= #[trigger] perm[t] < N,
                forall|t: int| 0 <= t < N ==> 0 <= #[trigger] inv[t] < N,
                forall|t: int| 0 <= t < N ==> a@[t] == orig[#[trigger] perm[t]],
                forall|t: int| 0 <= t < N ==> #[trigger] inv[perm[t]] == t,
                forall|m: int| 0 <= m < N ==> #[trigger] perm[inv[m]] == m,
                forall|t: int| 0 <= t < k ==> #[trigger] a@[t] != a@[t + 1],
            decreases N - k,
        {
            if a[k] == a[k + 1] {
                let v = a[k];
                proof {
                    lemma_first_adjacent_is_min_duplicate(a@, orig, perm, inv, k as int);
                }
                return Err(SketchError::DuplicateElement(v));
            }
            k = k + 1;
        }
        proof {
            lemma_no_adjacent_equal_strict(a@);
            lemma_permuted_distinct(a@, orig, perm, inv);
        }
        let r = FixedSketch { items: a };
        assert(r@ == a@);
        Ok(r)
    }

    /// The elements, in ascending order.
    pub fn as_array(&self) -> (r: &[u32; N])
        ensures
            r@ == self@,
    {
        &self.items
    }
}

/// In a sorted sequence, two equal elements at different positions make
/// their neighbourhood equal: the lower one equals its successor.
proof fn lemma_equal_pair_gives_adjacent(a: Seq<u32>, lo: int, hi: int)
    requires
        sorted_range(a, 0, a.len() as int),
        0 <= lo < hi < a.len(),
        a[lo] == a[hi],
    ensures
        a[lo] == a[lo + 1],
{
    assert(a[lo] <= a[lo + 1]);
    assert(a[lo + 1] <= a[hi]);
}

/// The first pair of equal neighbours in a sorted permutation of `orig`
/// holds the smallest value that `orig` repeats.
proof fn lemma_first_adjacent_is_min_duplicate(
    a: Seq<u32>,
    orig: Seq<u32>,
    perm: Seq<int>,
    inv: Seq<int>,
    k: int,
)
    requires
        a.len() == orig.len(),
        perm.len() == a.len(),
        inv.len() == a.len(),
        sorted_range(a, 0, a.len() as int),
        0 <= k < a.len() - 1,
        a[k] == a[k + 1],
        forall|t: int| 0 <= t < k ==> #[trigger] a[t] != a[t + 1],
        forall|t: int| 0 <= t < a.len() ==> 0 <= #[trigger] perm[t] < a.len(),
        forall|t: int| 0 <= t < a.len() ==> 0 <= #[trigger] inv[t] < a.len(),
        forall|t: int| 0 <= t < a.len() ==> a[t] == orig[#[trigger] perm[t]],
        forall|t: int| 0 <= t < a.len() ==> #[trigger] inv[perm[t]] == t,
        forall|m: int| 0 <= m < a.len() ==> #[trigger] perm[inv[m]] == m,
    ensures
        has_duplicate(orig),
        is_min_duplicate(orig, a[k]),
{
    let i0 = perm[k];
    let j0 = perm[k + 1];
    assert(inv[i0] == k && inv[j0] == k + 1);
    assert(orig[i0] == a[k] && orig[j0] == a[k + 1]);
    assert(i0 != j0);
    assert forall|i: int, j: int|
        0 <= i < orig.len() && 0 <= j < orig.len() && i != j && orig[i] == orig[j] implies a[k]
        <= orig[i] by {
        let qi = inv[i];
        let qj = inv[j];
        assert(perm[qi] == i && perm[qj] == j);
        assert(a[qi] == orig[i] && a[qj] == orig[j]);
        assert(qi != qj);
        let lo = if qi < qj {
            qi
        } else {
            qj
        };
        let hi = if qi < qj {
            qj
        } else {
            qi
        };
        lemma_equal_pair_gives_adjacent(a, lo, hi);
        if lo < k {
            assert(a[lo] != a[lo + 1]);
        }
        assert(a[k] <= a[lo]);
    }
}

/// A sorted sequence without equal neighbours is strictly sorted.
proof fn lemma_no_adjacent_equal_strict(a: Seq<u32>)
    requires
        a.len() > 0,
        sorted_range(a, 0, a.len() as int),
        forall|t: int| 0 <= t < a.len() - 1 ==> #[trigger] a[t] != a[t + 1],
    ensures
        strictly_sorted(a),
{
    assert forall|i: int, j: int| 0 <= i < j < a.len() implies a[i] < a[j] by {
        assert(a[i] <= a[i + 1]);
        assert(a[i] != a[i + 1]);
        assert(a[i + 1] <= a[j]);
    }
}

/// A strictly sorted permutation of `orig` shows that `orig` holds no value
/// twice and holds the same values.
proof fn lemma_permuted_distinct(a: Seq<u32>, orig: Seq<u32>, perm: Seq<int>, inv: Seq<int>)
    requires
        a.len() == orig.len(),
        perm.len() == a.len(),
        inv.len() == a.len(),
        strictly_sorted(a),
        forall|t: int| 0 <= t < a.len() ==> 0 <= #[trigger] perm[t] < a.len(),
        forall|t: int| 0 <= t < a.len() ==> 0 <= #[trigger] inv[t] < a.len(),
        forall|t: int| 0 <= t < a.len() ==> a[t] == orig[#[trigger] perm[t]],
        forall|t: int| 0 <= t < a.len() ==> #[trigger] inv[perm[t]] == t,
        forall|m: int| 0 <= m < a.len() ==> #[trigger] perm[inv[m]] == m,
    ensures
        !has_duplicate(orig),
        same_elements(a, orig),
{
    assert forall|i: int, j: int|
        0 <= i < orig.len() && 0 <= j < orig.len() && i != j implies orig[i] != orig[j] by {
        let qi = inv[i];
        let qj = inv[j];
        assert(perm[qi] == i && perm[qj] == j);
        assert(a[qi] == orig[i] && a[qj] == orig[j]);
        assert(qi != qj);
        if qi < qj {
            assert(a[qi] < a[qj]);
        } else {
            assert(a[qj] < a[qi]);
        }
    }
    assert forall|x: u32| a.contains(x) <==> orig.contains(x) by {
        if a.contains(x) {
            let t = choose|t: int| 0 <= t < a.len() && a[t] == x;
            assert(orig[perm[t]] == x);
        }
        if orig.contains(x) {
            let m = choose|m: int| 0 <= m < orig.len() && orig[m] == x;
            assert(perm[inv[m]] == m);
            assert(a[inv[m]] == x);
        }
    }
}

impl<const N: usize> Sketch for FixedSketch<N> {
    open spec fn elements(&self) -> Seq<u32> {
        self@
    }

    fn len(&self) -> (r: usize) {
        proof {
            use_type_invariant(self);
        }
        N
    }

    fn is_empty(&self) -> (r: bool) {
        N == 0
    }

    fn iter(&self) -> (r: Vec<u32>) {
        proof {
            use_type_invariant(self);
        }
        let mut out: Vec<u32> = Vec::new();
        let mut i: usize = 0;
        while i < N
            invariant
                0 <= i <= N,
                self.items@.len() == N,
                out@ == self.items@.take(i as int),
            decreases N - i,
        {
            out.push(self.items[i]);
            i = i + 1;
            assert(out@ == self.items@.take(i as int));
        }
        assert(self.items@.take(N as int) == self.items@);
        out
    }

    fn as_slice(&self) -> (r: &[u32]) {
        self.items.as_slice()
    }

    fn intersection_size(&self, other: &Self) -> (r: usize) {
        proof {
            use_type_invariant(self);
            use_type_invariant(other);
        }
        let ghost a = self.items@;
        let ghost b = other.items@;
        let mut left: usize = 0;
        let mut right: usize = 0;
        let mut intersection: usize = 0;
        while left < N && right < N
            invariant
                a == self.items@,
                b == other.items@,
                a.len() == N,
                b.len() == N,
                strictly_sorted(a),
                strictly_sorted(b),
                0 <= left <= N,
                0 <= right <= N,
                intersection == common_count(a.take(left as int), b),
                intersection <= left,
                // Everything of `b` already passed is below what is left of `a`.
                forall|jb: int, ia: int|
                    0 <= jb < right && left <= ia < N ==> #[trigger] b[jb] < #[trigger] a[ia],
            decreases (N - left) + (N - right),
        {
            let x = self.items[left];
            let y = other.items[right];
            proof {
                assert(a.take(left + 1).drop_last() == a.take(left as int));
            }
            if x < y {
                proof {
                    assert(!b.contains(x)) by {
                        if b.contains(x) {
                            let t = choose|t: int| 0 <= t < b.len() && b[t] == x;
                            if t < right {
                                assert(b[t] < a[left as int]);
                            } else if t > right {
                                assert(b[right as int] < b[t]);
                            }
                        }
                    }
                }
                left = left + 1;
            } else if x > y {
                right = right + 1;
            } else {
                proof {
                    assert(b[right as int] == x);
                }
                intersection = intersection + 1;
                left = left + 1;
                right = right + 1;
            }
        }
        proof {
            if left < N {
                // All of `b` lies below what is left of `a`.
                lemma_common_count_rest_absent(a, b, left as int);
            }
            assert(a.take(N as int) == a);
        }
        intersection
    }

    fn contains(&self, value: u32) -> (r: bool) {
        proof {
            use_type_invariant(self);
        }
        let ghost a = self.items@;
        let mut lo: usize = 0;
        let mut hi: usize = N;
        while lo < hi
            invariant
                a == self.items@,
                a.len() == N,
                strictly_sorted(a),
                0 <= lo <= hi <= N,
                forall|t: int| 0 <= t < lo ==> #[trigger] a[t] < value,
                forall|t: int| hi <= t < N ==> #[trigger] a[t] > value,
            decreases hi - lo,
        {
            let mid = lo + (hi - lo) / 2;
            let m = self.items[mid];
            if m == value {
                return true;
            } else if m < value {
                lo = mid + 1;
            } else {
                hi = mid;
            }
        }
        proof {
            if a.contains(value) {
                let t = choose|t: int| 0 <= t < a.len() && a[t] == value;
                if t < lo {
                } else {
                    assert(a[t] > value);
                }
            }
        }
        false
    }
}

/// When every element of `b` lies below the elements of `a` from `left` on,
/// those elements add nothing to the common count.
proof fn lemma_common_count_rest_absent(a: Seq<u32>, b: Seq<u32>, left: int)
    requires
        0 <= left <= a.len(),
        forall|jb: int, ia: int|
            0 <= jb < b.len() && left <= ia < a.len() ==> #[trigger] b[jb] < #[trigger] a[ia],
    ensures
        common_count(a, b) == common_count(a.take(left), b),
    decreases a.len() - left,
{
    if left < a.len() {
        let a2 = a.drop_last();
        assert forall|jb: int, ia: int|
            0 <= jb < b.len() && left <= ia < a2.len() implies #[trigger] b[jb] < #[trigger] a2[ia] by {
            assert(a2[ia] == a[ia]);
        }
        lemma_common_count_rest_absent(a2, b, left);
        assert(a2.take(left) == a.take(left));
        assert(!b.contains(a.last())) by {
            if b.contains(a.last()) {
                let t = choose|t: int| 0 <= t < b.len() && b[t] == a.last();
                assert(b[t] < a[a.len() - 1]);
            }
        }
    } else {
        assert(a.take(left) == a);
    }
}

/// Two inputs holding the same values give the same sketch: a strictly
/// ascending sequence is determined by the values it holds.
pub proof fn lemma_sorted_unique(p: Seq<u32>, q: Seq<u32>)
    requires
        strictly_sorted(p),
        strictly_sorted(q),
        same_elements(p, q),
    ensures
        p == q,
    decreases p.len() + q.len(),
{
    if p.len() == 0 {
        if q.len() > 0 {
            assert(q.contains(q[0]));
        }
        assert(p =~= q);
    } else if q.len() == 0 {
        assert(p.contains(p[0]));
    } else {
        let a = p.last();
        let b = q.last();
        assert(p.contains(a));
        assert(q.contains(b));
        let i = choose|i: int| 0 <= i < q.len() && q[i] == a;
        let j = choose|j: int| 0 <= j < p.len() && p[j] == b;
        if i < q.len() - 1 {
            assert(q[i] < q[q.len() - 1]);
        }
        if j < p.len() - 1 {
            assert(p[j] < p[p.len() - 1]);
        }
        assert(a == b);
        let p1 = p.drop_last();
        let q1 = q.drop_last();
        assert forall|x: u32| p1.contains(x) <==> q1.contains(x) by {
            if p1.contains(x) {
                let t = choose|t: int| 0 <= t < p1.len() && p1[t] == x;
                assert(p[t] < a);
                assert(p.contains(x));
                let u = choose|u: int| 0 <= u < q.len() && q[u] == x;
                assert(u != q.len() - 1);
                assert(q1[u] == x);
            }
            if q1.contains(x) {
                let t = choose|t: int| 0 <= t < q1.len() && q1[t] == x;
                assert(q[t] < b);
                assert(q.contains(x));
                let u = choose|u: int| 0 <= u < p.len() && p[u] == x;
                assert(u != p.len() - 1);
                assert(p1[u] == x);
            }
        }
        lemma_sorted_unique(p1, q1);
        assert(p =~= p1.push(a));
        assert(q =~= q1.push(b));
    }
}

/// Intersecting with a sequence that has one more element `y` counts one
/// more exactly when `y` is in `a` (which holds no value twice).
pub proof fn lemma_common_count_push(a: Seq<u32>, b: Seq<u32>, y: u32)
    requires
        a.no_duplicates(),
    ensures
        common_count(a, b.push(y)) == common_count(a, b) + if a.contains(y) && !b.contains(y) {
            1nat
        } else {
            0nat
        },
    decreases a.len(),
{
    if a.len() > 0 {
        let a1 = a.drop_last();
        assert(a1.no_duplicates());
        lemma_common_count_push(a1, b, y);
        let x = a.last();
        assert(b.push(y).contains(x) == (b.contains(x) || x == y)) by {
            if b.push(y).contains(x) {
                let t = choose|t: int| 0 <= t < b.push(y).len() && b.push(y)[t] == x;
                if t < b.len() {
                    assert(b[t] == x);
                }
            }
            if b.contains(x) {
                let t = choose|t: int| 0 <= t < b.len() && b[t] == x;
                assert(b.push(y)[t] == x);
            }
            if x == y {
                assert(b.push(y)[b.len() as int] == x);
            }
        }
        assert(a.contains(y) == (a1.contains(y) || x == y)) by {
            if a.contains(y) {
                let t = choose|t: int| 0 <= t < a.len() && a[t] == y;
                if t < a1.len() {
                    assert(a1[t] == y);
                }
            }
            if a1.contains(y) {
                let t = choose|t: int| 0 <= t < a1.len() && a1[t] == y;
                assert(a[t] == y);
            }
        }
        if x == y {
            assert(!a1.contains(y)) by {
                if a1.contains(y) {
                    let t = choose|t: int| 0 <= t < a1.len() && a1[t] == y;
                    assert(a[t] == a[a.len() - 1]);
                }
            }
        }
    } else {
        assert(!a.contains(y));
    }
}

/// The common count is symmetric for sequences that hold no value twice:
/// `intersection_size(a, b) == intersection_size(b, a)`.
pub proof fn lemma_common_count_symmetric(a: Seq<u32>, b: Seq<u32>)
    requires
        a.no_duplicates(),
        b.no_duplicates(),
    ensures
        common_count(a, b) == common_count(b, a),
    decreases b.len(),
{
    if b.len() > 0 {
        let b1 = b.drop_last();
        let y = b.last();
        assert(b1.no_duplicates());
        lemma_common_count_symmetric(a, b1);
        assert(b1.push(y) == b);
        lemma_common_count_push(a, b1, y);
        assert(!b1.contains(y)) by {
            if b1.contains(y) {
                let t = choose|t: int| 0 <= t < b1.len() && b1[t] == y;
                assert(b[t] == b[b.len() - 1]);
            }
        }
    } else {
        assert forall|i: int| 0 <= i < a.len() implies !b.contains(#[trigger] a[i]) by {}
        lemma_common_count_none(a, b);
    }
}

proof fn lemma_common_count_none(a: Seq<u32>, b: Seq<u32>)
    requires
        b.len() == 0,
    ensures
        common_count(a, b) == 0,
    decreases a.len(),
{
    if a.len() > 0 {
        lemma_common_count_none(a.drop_last(), b);
    }
}

/// A sequence that holds no value twice shares all its elements with
/// itself: `intersection_size(a, a) == a.len()`.
pub proof fn lemma_common_count_self(a: Seq<u32>)
    requires
        a.no_duplicates(),
    ensures
        common_count(a, a) == a.len(),
    decreases a.len(),
{
    if a.len() > 0 {
        let a1 = a.drop_last();
        let x = a.last();
        assert(a1.no_duplicates());
        lemma_common_count_self(a1);
        assert(a1.push(x) == a);
        lemma_common_count_push(a1, a1, x);
        assert(!a1.contains(x)) by {
            if a1.contains(x) {
                let t = choose|t: int| 0 <= t < a1.len() && a1[t] == x;
                assert(a[t] == a[a.len() - 1]);
            }
        }
        lemma_common_count_symmetric(a1, a);
        lemma_common_count_symmetric(a1, a1);
        assert(common_count(a, a) == common_count(a1, a) + 1) by {
            assert(a.contains(x)) by {
                assert(a[a.len() - 1] == x);
            }
        }
    }
}

/// Two sketches never share more elements than either holds.
pub proof fn lemma_common_count_bound(a: Seq<u32>, b: Seq<u32>)
    ensures
        common_count(a, b) <= a.len(),
    decreases a.len(),
{
    if a.len() > 0 {
        lemma_common_count_bound(a.drop_last(), b);
    }
}

/// A strictly sorted sequence holds no value twice.
pub proof fn lemma_strictly_sorted_no_duplicates(a: Seq<u32>)
    requires
        strictly_sorted(a),
    ensures
        a.no_duplicates(),
{
    assert forall|i: int, j: int| 0 <= i < a.len() && 0 <= j < a.len() && i != j implies a[i] != a[j] by {
        if i < j {
            assert(a[i] < a[j]);
        } else {
            assert(a[j] < a[i]);
        }
    }
}

/// Alias for a 2-element sketch.
pub type Sketch2 = FixedSketch<2>;

/// Alias for a 3-element sketch.
pub type Sketch3 = FixedSketch<3>;

/// Alias for a 6-element sketch.
pub type Sketch6 = FixedSketch<6>;

} // verus!
