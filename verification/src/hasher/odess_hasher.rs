//! The Odess similarity hasher: content-defined sampling of a gear rolling
//! fingerprint, a family of linear transforms whose minima are the features,
//! and super-features that hash groups of features together.

use std::collections::hash_map::DefaultHasher;

use vstd::prelude::*;
use vstd::std_specs::hash::DefaultHasherAdditionalSpecFns;
use vstd::wrapping::u64_specs;

use crate::palantir::encoder::gear_roll;
use crate::palantir::gear::GEAR;

verus! {

/// Number of words in the hash that saturates `next_hash` or `last_hash`.
pub const SUPER_FEATURES_NUM: usize = 8;

/// How features are grouped into super-features: `groups` groups of
/// `sf_num` features each, giving `sf_num` super-features.
pub struct SuperFeatureConfig {
    groups: usize,
    sf_num: usize,
}

impl View for SuperFeatureConfig {
    /// (groups, super-features per group)
    type V = (usize, usize);

    closed spec fn view(&self) -> (usize, usize) {
        (self.groups, self.sf_num)
    }
}

impl SuperFeatureConfig {
    /// A configuration of `groups` groups of `sf_num` features. Both must be
    /// positive.
    pub fn new(groups: usize, sf_num: usize) -> (r: Self)
        requires
            groups > 0,
            sf_num > 0,
        ensures
            r@ == (groups, sf_num),
    {
        Self { groups, sf_num }
    }

    /// Number of groups.
    pub fn groups(&self) -> (r: usize)
        ensures
            r == self@.0,
    {
        self.groups
    }

    /// Number of super-features.
    pub fn sf_num(&self) -> (r: usize)
        ensures
            r == self@.1,
    {
        self.sf_num
    }
}

/// How the hash is built from the features.
pub enum IndexType {
    /// Features grouped into super-features.
    SuperFeatured(SuperFeatureConfig),
    /// The given number of raw features.
    RawFeatured(usize),
}

/// The number of features an index type needs.
pub open spec fn features_needed(t: IndexType) -> int {
    match t {
        IndexType::SuperFeatured(cfg) => cfg@.0 * cfg@.1,
        IndexType::RawFeatured(n) => n as int,
    }
}

/// The Odess hash of a chunk: its features or super-features.
#[derive(Default, Debug, Clone, PartialEq, Eq, Hash)]
pub struct OdessHash {
    hash: Vec<u64>,
}

impl View for OdessHash {
    type V = Seq<u64>;

    closed spec fn view(&self) -> Seq<u64> {
        self.hash@
    }
}

/// The words `next_hash` and `last_hash` may read: the first word always,
/// the second when the first is saturated, the third when both are.
pub open spec fn counter_readable(h: Seq<u64>, sat: u64) -> bool {
    &&& h.len() >= 1
    &&& h[0] == sat ==> h.len() >= 2
    &&& h[0] == sat && h[1] == sat ==> h.len() >= 3
}

/// The hash one step up: the first three words count as a little-endian
/// number that is incremented; past its top, every one of eight words is
/// `u64::MAX`.
pub open spec fn next_hash_spec(h: Seq<u64>) -> Seq<u64> {
    if h[0] < u64::MAX {
        h.update(0, (h[0] + 1) as u64)
    } else if h[1] < u64::MAX {
        h.update(0, 0).update(1, (h[1] + 1) as u64)
    } else if h[2] < u64::MAX {
        h.update(0, 0).update(1, 0).update(2, (h[2] + 1) as u64)
    } else {
        Seq::new(SUPER_FEATURES_NUM as nat, |i: int| u64::MAX)
    }
}

/// The hash one step down: the first three words count as a
/// little-endian number that is decremented; below zero, every one of eight
/// words is 0.
pub open spec fn last_hash_spec(h: Seq<u64>) -> Seq<u64> {
    if h[0] > 0 {
        h.update(0, (h[0] - 1) as u64)
    } else if h[1] > 0 {
        h.update(0, u64::MAX).update(1, (h[1] - 1) as u64)
    } else if h[2] > 0 {
        h.update(0, u64::MAX).update(1, u64::MAX).update(2, (h[2] - 1) as u64)
    } else {
        Seq::new(SUPER_FEATURES_NUM as nat, |i: int| 0)
    }
}

impl OdessHash {
    /// A hash holding `words`.
    pub fn from_words(words: Vec<u64>) -> (r: Self)
        ensures
            r@ == words@,
    {
        OdessHash { hash: words }
    }

    /// The words of the hash.
    pub fn as_slice(&self) -> (r: &[u64])
        ensures
            r@ == self@,
    {
        self.hash.as_slice()
    }

    /// The next hash in the order of the first three words.
    pub fn next_hash(&self) -> (r: Self)
        requires
            counter_readable(self@, u64::MAX),
        ensures
            r@ == next_hash_spec(self@),
    {
        let mut h = copy_words(&self.hash);
        if h[0] < u64::MAX {
            let v = h[0] + 1;
            h.set(0, v);
        } else if h[1] < u64::MAX {
            let v = h[1] + 1;
            h.set(0, 0);
            h.set(1, v);
        } else if h[2] < u64::MAX {
            let v = h[2] + 1;
            h.set(0, 0);
            h.set(1, 0);
            h.set(2, v);
        } else {
            h = saturated(u64::MAX);
        }
        OdessHash { hash: h }
    }

    /// The previous hash in the order of the first three words.
    pub fn last_hash(&self) -> (r: Self)
        requires
            counter_readable(self@, 0),
        ensures
            r@ == last_hash_spec(self@),
    {
        let mut h = copy_words(&self.hash);
        if h[0] > 0 {
            let v = h[0] - 1;
            h.set(0, v);
        } else if h[1] > 0 {
            let v = h[1] - 1;
            h.set(0, u64::MAX);
            h.set(1, v);
        } else if h[2] > 0 {
            let v = h[2] - 1;
            h.set(0, u64::MAX);
            h.set(1, u64::MAX);
            h.set(2, v);
        } else {
            h = saturated(0);
        }
        OdessHash { hash: h }
    }
}

/// Eight copies of `w`.
fn saturated(w: u64) -> (r: Vec<u64>)
    ensures
        r@ == Seq::new(SUPER_FEATURES_NUM as nat, |i: int| w),
{
    let mut v: Vec<u64> = Vec::new();
    let mut i: usize = 0;
    while i < SUPER_FEATURES_NUM
        invariant
            0 <= i <= SUPER_FEATURES_NUM,
            v@ == Seq::new(i as nat, |t: int| w),
        decreases SUPER_FEATURES_NUM - i,
    {
        v.push(w);
        i = i + 1;
        assert(v@ =~= Seq::new(i as nat, |t: int| w));
    }
    v
}

/// A copy of `src`.
fn copy_words(src: &Vec<u64>) -> (r: Vec<u64>)
    ensures
        r@ == src@,
{
    let mut out: Vec<u64> = Vec::new();
    let mut i: usize = 0;
    while i < src.len()
        invariant
            0 <= i <= src.len(),
            out@ == src@.take(i as int),
        decreases src.len() - i,
    {
        out.push(src[i]);
        i = i + 1;
        assert(out@ == src@.take(i as int));
    }
    assert(src@.take(src.len() as int) == src@);
    out
}

/// Stepping up and then down gives the hash back, unless its first three
/// words are all `u64::MAX` (then stepping up saturates).
pub proof fn lemma_last_after_next(h: Seq<u64>)
    requires
        h.len() >= 3,
        !(h[0] == u64::MAX && h[1] == u64::MAX && h[2] == u64::MAX),
    ensures
        counter_readable(next_hash_spec(h), 0),
        last_hash_spec(next_hash_spec(h)) == h,
{
    let n = next_hash_spec(h);
    assert(last_hash_spec(n) =~= h);
}

/// Stepping down and then up gives the hash back, unless its first three
/// words are all 0 (then stepping down saturates).
pub proof fn lemma_next_after_last(h: Seq<u64>)
    requires
        h.len() >= 3,
        !(h[0] == 0 && h[1] == 0 && h[2] == 0),
    ensures
        counter_readable(last_hash_spec(h), u64::MAX),
        next_hash_spec(last_hash_spec(h)) == h,
{
    let l = last_hash_spec(h);
    assert(next_hash_spec(l) =~= h);
}

/// The sampling mask of a sampling rate: its `sampling_rate` low bits.
pub open spec fn sample_mask(sampling_rate: u64) -> u64 {
    ((1u64 << sampling_rate) - 1) as u64
}

/// The linear transform of a sampled fingerprint: `coef * fp + byte`,
/// wrapping at 2^64, then reduced modulo 2^32.
pub open spec fn transform(coef: u64, fp: u64, byte: u8) -> u64 {
    (u64_specs::wrapping_add(u64_specs::wrapping_mul(coef, fp), byte as u64) % 0x1_0000_0000) as u64
}

/// Feature `i` of `chunk`: the least transform, under coefficient `coef`,
/// of the fingerprints of the positions where the fingerprint's masked bits
/// are zero; `u64::MAX` when no position is sampled.
pub open spec fn feature(coef: u64, mask: u64, chunk: Seq<u8>) -> u64
    decreases chunk.len(),
{
    if chunk.len() == 0 {
        u64::MAX
    } else {
        let prev = feature(coef, mask, chunk.drop_last());
        let fp = gear_roll(chunk, 1);
        let t = transform(coef, fp, chunk.last());
        if fp & mask == 0 && prev > t {
            t
        } else {
            prev
        }
    }
}

/// The features of `chunk` under the coefficients `coefs`, sampling at
/// `sampling_rate`.
pub open spec fn odess_features(coefs: Seq<u64>, sampling_rate: u64, chunk: Seq<u8>) -> Seq<u64> {
    Seq::new(coefs.len(), |i: int| feature(coefs[i], sample_mask(sampling_rate), chunk))
}

/// Position `p` of `chunk` is sampled: the gear fingerprint of the bytes up
/// to and including it has every bit of `mask` clear.
pub open spec fn is_sampled(chunk: Seq<u8>, mask: u64, p: int) -> bool {
    0 <= p < chunk.len() && gear_roll(chunk.take(p + 1), 1) & mask == 0
}

/// The transform, under `coef`, of the fingerprint and byte at position
/// `p` of `chunk`.
pub open spec fn transform_at(coef: u64, chunk: Seq<u8>, p: int) -> u64 {
    transform(coef, gear_roll(chunk.take(p + 1), 1), chunk[p])
}

/// `v` is the least transform under `coef` over the sampled positions of
/// `chunk`: no sampled position has a smaller one, some sampled position
/// has exactly `v` when any is sampled, and `v` is `u64::MAX` when none is.
pub open spec fn is_least_sampled(v: u64, coef: u64, mask: u64, chunk: Seq<u8>) -> bool {
    &&& forall|p: int| #[trigger] is_sampled(chunk, mask, p) ==> v <= transform_at(coef, chunk, p)
    &&& (exists|p: int| #[trigger] is_sampled(chunk, mask, p)) ==> exists|p: int|
        #[trigger] is_sampled(chunk, mask, p) && v == transform_at(coef, chunk, p)
    &&& (forall|p: int| !#[trigger] is_sampled(chunk, mask, p)) ==> v == u64::MAX
}

/// A feature is the least transform over the sampled positions of the
/// chunk.
pub proof fn lemma_feature_is_least(coef: u64, mask: u64, chunk: Seq<u8>)
    ensures
        is_least_sampled(feature(coef, mask, chunk), coef, mask, chunk),
    decreases chunk.len(),
{
    if chunk.len() > 0 {
        let d = chunk.drop_last();
        let n = chunk.len() as int;
        lemma_feature_is_least(coef, mask, d);
        let prev = feature(coef, mask, d);
        let v = feature(coef, mask, chunk);
        assert(chunk.take(n) =~= chunk);
        let t = transform_at(coef, chunk, n - 1);
        assert(t < 0x1_0000_0000);
        assert forall|p: int| 0 <= p < n - 1 implies (is_sampled(chunk, mask, p) == is_sampled(d, mask, p)
            && transform_at(coef, chunk, p) == transform_at(coef, d, p)) by {
            assert(chunk.take(p + 1) =~= d.take(p + 1));
        }
        assert forall|p: int| #[trigger] is_sampled(chunk, mask, p) implies v <= transform_at(coef, chunk, p) by {
            if p < n - 1 {
                assert(is_sampled(d, mask, p));
            }
        }
        if exists|p: int| #[trigger] is_sampled(chunk, mask, p) {
            if is_sampled(chunk, mask, n - 1) && prev > t {
                assert(v == t);
            } else if is_sampled(chunk, mask, n - 1) {
                assert(v == prev);
                if exists|p: int| #[trigger] is_sampled(d, mask, p) {
                    let q = choose|p: int| #[trigger] is_sampled(d, mask, p) && prev == transform_at(coef, d, p);
                    assert(is_sampled(chunk, mask, q));
                } else {
                    assert(prev == u64::MAX);
                    assert(false);
                }
            } else {
                let w = choose|p: int| #[trigger] is_sampled(chunk, mask, p);
                assert(is_sampled(d, mask, w));
                let q = choose|p: int| #[trigger] is_sampled(d, mask, p) && prev == transform_at(coef, d, p);
                assert(is_sampled(chunk, mask, q));
            }
        }
        assert forall|p: int| 0 <= p < d.len() && (forall|x: int| !#[trigger] is_sampled(chunk, mask, x))
            implies !is_sampled(d, mask, p) by {
            assert(!is_sampled(chunk, mask, p));
        }
    }
}

/// Every feature of a chunk is the least transform, under its coefficient,
/// over the sampled positions of the chunk.
pub proof fn lemma_features_are_least(coefs: Seq<u64>, sampling_rate: u64, chunk: Seq<u8>)
    ensures
        odess_features(coefs, sampling_rate, chunk).len() == coefs.len(),
        forall|i: int|
            0 <= i < coefs.len() ==> is_least_sampled(
                #[trigger] odess_features(coefs, sampling_rate, chunk)[i],
                coefs[i],
                sample_mask(sampling_rate),
                chunk,
            ),
{
    assert forall|i: int| 0 <= i < coefs.len() implies is_least_sampled(
        #[trigger] odess_features(coefs, sampling_rate, chunk)[i],
        coefs[i],
        sample_mask(sampling_rate),
        chunk,
    ) by {
        lemma_feature_is_least(coefs[i], sample_mask(sampling_rate), chunk);
    }
}

/// Sorted in ascending order.
pub open spec fn ascending(s: Seq<u64>) -> bool {
    forall|i: int, j: int| 0 <= i < j < s.len() ==> s[i] <= s[j]
}

/// Column `i` of the sorted groups: the `i`-th smallest feature of each
/// group, group by group.
pub open spec fn column(cols: Seq<Vec<u64>>, g: int) -> Seq<u64> {
    Seq::new(cols.len(), |i: int| cols[i]@[g])
}

/// `cols` holds, for each of the `sf_num` positions, the word at that
/// position of each group of `features` once sorted: group `g` is
/// `features[g * sf_num .. (g + 1) * sf_num]`.
pub open spec fn is_column_split(features: Seq<u64>, groups: int, sf_num: int, cols: Seq<Vec<u64>>) -> bool {
    &&& cols.len() == sf_num
    &&& forall|i: int| 0 <= i < sf_num ==> (#[trigger] cols[i])@.len() == groups
    &&& forall|g: int|
        0 <= g < groups ==> {
            &&& ascending(#[trigger] column(cols, g))
            &&& column(cols, g).to_multiset() == features.subrange(g * sf_num, (g + 1) * sf_num).to_multiset()
        }
}

/// Sorts `v` in ascending order.
pub fn sort_words(v: &mut Vec<u64>)
    ensures
        final(v)@.len() == old(v)@.len(),
        ascending(final(v)@),
        final(v)@.to_multiset() == old(v)@.to_multiset(),
{
    let n = v.len();
    if n == 0 {
        return;
    }
    let mut i: usize = 1;
    while i < n
        invariant
            1 <= i <= n,
            v.len() == n,
            forall|a: int, b: int| 0 <= a < b < i ==> v@[a] <= v@[b],
            v@.to_multiset() == old(v)@.to_multiset(),
        decreases n - i,
    {
        let mut j: usize = i;
        while j > 0 && v[j - 1] > v[j]
            invariant
                0 <= j <= i < n,
                v.len() == n,
                forall|a: int, b: int| 0 <= a < b < j ==> v@[a] <= v@[b],
                forall|a: int, b: int| j <= a < b <= i ==> v@[a] <= v@[b],
                forall|a: int, b: int| 0 <= a < j < b <= i ==> #[trigger] v@[a] <= #[trigger] v@[b],
                v@.to_multiset() == old(v)@.to_multiset(),
            decreases j,
        {
            let x = v[j - 1];
            let y = v[j];
            let ghost before = v@;
            v.set(j - 1, y);
            v.set(j, x);
            proof {
                broadcast use vstd::multiset::group_multiset_axioms;
                let mid = before.update(j - 1, y);
                vstd::seq_lib::to_multiset_update(before, j - 1, y);
                vstd::seq_lib::to_multiset_update(mid, j as int, x);
                assert(v@ == mid.update(j as int, x));
                assert(mid[j as int] == y);
                vstd::seq_lib::to_multiset_contains(before, x);
                assert(before.contains(x)) by {
                    assert(before[j - 1] == x);
                }
                assert(v@.to_multiset() =~= before.to_multiset());
            }
            j = j - 1;
        }
        i = i + 1;
    }
}

/// Two ascending sequences that hold the same elements are equal.
pub proof fn lemma_ascending_unique(a: Seq<u64>, b: Seq<u64>)
    requires
        ascending(a),
        ascending(b),
        a.to_multiset() == b.to_multiset(),
    ensures
        a == b,
    decreases a.len(),
{
    broadcast use vstd::multiset::group_multiset_axioms;

    vstd::seq_lib::to_multiset_len(a);
    vstd::seq_lib::to_multiset_len(b);
    if a.len() > 0 {
        vstd::seq_lib::to_multiset_contains(a, b[0]);
        vstd::seq_lib::to_multiset_contains(b, a[0]);
        vstd::seq_lib::to_multiset_contains(a, a[0]);
        vstd::seq_lib::to_multiset_contains(b, b[0]);
        assert(a.contains(a[0]));
        assert(b.contains(b[0]));
        assert(b.contains(a[0]));
        assert(a.contains(b[0]));
        let k = choose|k: int| 0 <= k < b.len() && b[k] == a[0];
        let m = choose|m: int| 0 <= m < a.len() && a[m] == b[0];
        assert(b[0] <= b[k]);
        assert(a[0] <= a[m]);
        vstd::seq_lib::to_multiset_remove(a, 0);
        vstd::seq_lib::to_multiset_remove(b, 0);
        assert(a.remove(0) =~= a.drop_first());
        assert(b.remove(0) =~= b.drop_first());
        lemma_ascending_unique(a.drop_first(), b.drop_first());
        assert(a =~= b) by {
            assert forall|i: int| 0 <= i < a.len() implies a[i] == b[i] by {
                if i > 0 {
                    assert(a[i] == a.drop_first()[i - 1]);
                    assert(b[i] == b.drop_first()[i - 1]);
                }
            }
        }
    } else {
        assert(a =~= b);
    }
}

/// The columns of the sorted groups are determined by the features.
pub proof fn lemma_column_split_unique(
    features: Seq<u64>,
    groups: int,
    sf_num: int,
    c1: Seq<Vec<u64>>,
    c2: Seq<Vec<u64>>,
)
    requires
        is_column_split(features, groups, sf_num, c1),
        is_column_split(features, groups, sf_num, c2),
    ensures
        column_digests(c1) == column_digests(c2),
        forall|i: int| 0 <= i < sf_num ==> (#[trigger] c1[i])@ == c2[i]@,
{
    assert forall|g: int| 0 <= g < groups implies #[trigger] column(c1, g) == column(c2, g) by {
        lemma_ascending_unique(column(c1, g), column(c2, g));
    }
    assert forall|i: int| 0 <= i < sf_num implies (#[trigger] c1[i])@ == c2[i]@ by {
        assert forall|t: int| 0 <= t < groups implies c1[i]@[t] == c2[i]@[t] by {
            assert(column(c1, t)[i] == column(c2, t)[i]);
        }
        assert(c1[i]@ =~= c2[i]@);
    }
    assert(column_digests(c1) =~= column_digests(c2));
}

/// The columns of the sorted groups of `features`.
pub fn super_feature_columns(features: &Vec<u64>, groups: usize, sf_num: usize) -> (r: Vec<Vec<u64>>)
    requires
        features.len() == groups * sf_num,
    ensures
        is_column_split(features@, groups as int, sf_num as int, r@),
{
    // The sorted groups, one after the other.
    let mut sorted_groups: Vec<Vec<u64>> = Vec::new();
    let mut g: usize = 0;
    let mut start: usize = 0;
    while g < groups
        invariant
            0 <= g <= groups,
            features.len() == groups * sf_num,
            start == g * sf_num,
            sorted_groups.len() == g,
            forall|t: int|
                0 <= t < g ==> {
                    &&& (#[trigger] sorted_groups@[t])@.len() == sf_num
                    &&& ascending(sorted_groups@[t]@)
                    &&& sorted_groups@[t]@.to_multiset() == features@.subrange(t * sf_num, (t + 1) * sf_num).to_multiset()
                },
        decreases groups - g,
    {
        proof {
            assert((g + 1) * sf_num == g * sf_num + sf_num) by (nonlinear_arith);
            assert((g + 1) * sf_num <= groups * sf_num) by (nonlinear_arith)
                requires
                    g < groups,
            ;
        }
        let mut group: Vec<u64> = Vec::new();
        let mut k: usize = 0;
        while k < sf_num
            invariant
                0 <= k <= sf_num,
                start + sf_num <= features.len(),
                group@ == features@.subrange(start as int, start + k),
            decreases sf_num - k,
        {
            group.push(features[start + k]);
            k = k + 1;
            assert(group@ =~= features@.subrange(start as int, start + k));
        }
        let ghost unsorted = group@;
        sort_words(&mut group);
        let ghost prev = sorted_groups@;
        sorted_groups.push(group);
        proof {
            assert(unsorted == features@.subrange(g * sf_num, (g + 1) * sf_num));
            assert forall|t: int| 0 <= t < g + 1 implies {
                &&& (#[trigger] sorted_groups@[t])@.len() == sf_num
                &&& ascending(sorted_groups@[t]@)
                &&& sorted_groups@[t]@.to_multiset() == features@.subrange(t * sf_num, (t + 1) * sf_num).to_multiset()
            } by {
                if t < g {
                    assert(sorted_groups@[t] == prev[t]);
                }
            }
        }
        g = g + 1;
        start = start + sf_num;
    }
    let mut cols: Vec<Vec<u64>> = Vec::new();
    let mut i: usize = 0;
    while i < sf_num
        invariant
            0 <= i <= sf_num,
            sorted_groups.len() == groups,
            forall|t: int| 0 <= t < groups ==> (#[trigger] sorted_groups@[t])@.len() == sf_num,
            cols.len() == i,
            forall|c: int|
                0 <= c < i ==> {
                    &&& (#[trigger] cols@[c])@.len() == groups
                    &&& forall|t: int| 0 <= t < groups ==> cols@[c]@[t] == sorted_groups@[t]@[c]
                },
        decreases sf_num - i,
    {
        let mut col: Vec<u64> = Vec::new();
        let mut t: usize = 0;
        while t < groups
            invariant
                0 <= t <= groups,
                i < sf_num,
                sorted_groups.len() == groups,
                forall|u: int| 0 <= u < groups ==> (#[trigger] sorted_groups@[u])@.len() == sf_num,
                col@.len() == t,
                forall|u: int| 0 <= u < t ==> col@[u] == sorted_groups@[u]@[i as int],
            decreases groups - t,
        {
            col.push(sorted_groups[t][i]);
            t = t + 1;
        }
        cols.push(col);
        i = i + 1;
    }
    proof {
        assert forall|g: int| 0 <= g < groups implies {
            &&& ascending(#[trigger] column(cols@, g))
            &&& column(cols@, g).to_multiset() == features@.subrange(g * sf_num, (g + 1) * sf_num).to_multiset()
        } by {
            assert(column(cols@, g) =~= sorted_groups@[g]@);
        }
    }
    cols
}

/// The eight little-endian bytes of `w`.
pub open spec fn le_bytes(w: u64) -> Seq<u8> {
    seq![
        (w & 0xff) as u8,
        ((w >> 8u64) & 0xff) as u8,
        ((w >> 16u64) & 0xff) as u8,
        ((w >> 24u64) & 0xff) as u8,
        ((w >> 32u64) & 0xff) as u8,
        ((w >> 40u64) & 0xff) as u8,
        ((w >> 48u64) & 0xff) as u8,
        ((w >> 56u64) & 0xff) as u8,
    ]
}

/// The writes that hashing `words` one word at a time makes.
pub open spec fn words_bytes(words: Seq<u64>) -> Seq<Seq<u8>> {
    words.map_values(|w: u64| le_bytes(w))
}

/// `writes` is one write per word of `words`, in order, each of the word's
/// eight little-endian bytes.
pub open spec fn writes_each_word(writes: Seq<Seq<u8>>, words: Seq<u64>) -> bool {
    &&& writes.len() == words.len()
    &&& forall|k: int| 0 <= k < words.len() ==> #[trigger] writes[k] == le_bytes(words[k])
}

/// The `DefaultHasher` digest of each column.
pub open spec fn column_digests(cols: Seq<Vec<u64>>) -> Seq<u64> {
    Seq::new(cols.len(), |i: int| DefaultHasher::spec_finish(words_bytes(cols[i]@)))
}

/// Each column's digest is the `DefaultHasher` digest of one write per word
/// of the column, in order, each of the word's eight little-endian bytes.
pub proof fn lemma_digests_hash_every_word(cols: Seq<Vec<u64>>)
    ensures
        column_digests(cols).len() == cols.len(),
        forall|i: int, writes: Seq<Seq<u8>>|
            0 <= i < cols.len() && #[trigger] writes_each_word(writes, cols[i]@) ==> #[trigger] column_digests(
                cols,
            )[i] == DefaultHasher::spec_finish(writes),
{
    assert forall|i: int, writes: Seq<Seq<u8>>|
        0 <= i < cols.len() && #[trigger] writes_each_word(writes, cols[i]@) implies #[trigger] column_digests(
            cols,
        )[i] == DefaultHasher::spec_finish(writes) by {
        assert(writes =~= words_bytes(cols[i]@));
    }
}

/// The eight little-endian bytes of `w`.
fn word_bytes(w: u64) -> (r: [u8; 8])
    ensures
        r@ == le_bytes(w),
{
    let r = [
        (w & 0xff) as u8,
        ((w >> 8) & 0xff) as u8,
        ((w >> 16) & 0xff) as u8,
        ((w >> 24) & 0xff) as u8,
        ((w >> 32) & 0xff) as u8,
        ((w >> 40) & 0xff) as u8,
        ((w >> 48) & 0xff) as u8,
        ((w >> 56) & 0xff) as u8,
    ];
    assert(r@ =~= le_bytes(w));
    r
}

/// The `DefaultHasher` digest of `words`, each written as its eight
/// little-endian bytes.
fn hash_words(words: &Vec<u64>) -> (r: u64)
    ensures
        r == DefaultHasher::spec_finish(words_bytes(words@)),
        forall|writes: Seq<Seq<u8>>|
            #[trigger] writes_each_word(writes, words@) ==> r == DefaultHasher::spec_finish(writes),
{
    let mut hasher = DefaultHasher::new();
    let mut i: usize = 0;
    while i < words.len()
        invariant
            0 <= i <= words.len(),
            hasher@ == words_bytes(words@.take(i as int)),
        decreases words.len() - i,
    {
        let bytes = word_bytes(words[i]);
        std::hash::Hasher::write(&mut hasher, &bytes);
        proof {
            assert(words_bytes(words@.take(i + 1)) =~= words_bytes(words@.take(i as int)).push(le_bytes(words@[i as int])));
        }
        i = i + 1;
    }
    assert(words@.take(words.len() as int) =~= words@);
    proof {
        assert forall|writes: Seq<Seq<u8>>| #[trigger] writes_each_word(writes, words@) implies writes
            == words_bytes(words@) by {
            assert(writes =~= words_bytes(words@));
        }
    }
    std::hash::Hasher::finish(&hasher)
}

/// Calls `rand::random::<u64>()`. The value depends on chance: nothing is
/// claimed of it.
#[verifier::external_body]
fn random_u64() -> u64 {
    rand::random::<u64>()
}

/// The Odess hasher: a sampling rate, one random coefficient per feature,
/// and how the features make the hash.
pub struct OdessHasher {
    sampling_rate: u64,
    linear_coefficients: Vec<u64>,
    index_type: IndexType,
    features_num: usize,
}

impl OdessHasher {
    #[verifier::type_invariant]
    spec fn well_formed(self) -> bool {
        &&& self.linear_coefficients@.len() == self.features_num
        &&& self.features_num == features_needed(self.index_type)
    }

    /// The sampling rate.
    pub closed spec fn rate(&self) -> u64 {
        self.sampling_rate
    }

    /// The coefficient of each feature.
    pub closed spec fn coefficients(&self) -> Seq<u64> {
        self.linear_coefficients@
    }

    /// How the features make the hash.
    pub closed spec fn kind(&self) -> IndexType {
        self.index_type
    }

    /// A hasher with sampling rate `sampling_rate` that builds its hash as
    /// `index_type` says, with one random coefficient per feature.
    pub fn new(sampling_rate: u64, index_type: IndexType) -> (r: Self)
        requires
            features_needed(index_type) <= usize::MAX,
        ensures
            r.rate() == sampling_rate,
            r.kind() == index_type,
            r.coefficients().len() == features_needed(index_type),
    {
        proof {
            if let IndexType::SuperFeatured(cfg) = &index_type {
                assert(cfg@.1 * cfg@.0 == cfg@.0 * cfg@.1) by (nonlinear_arith);
            }
        }
        let features_num = match &index_type {
            IndexType::SuperFeatured(sf_cfg) => sf_cfg.sf_num() * sf_cfg.groups(),
            IndexType::RawFeatured(rf_num) => *rf_num,
        };
        let mut linear_coefficients: Vec<u64> = Vec::with_capacity(features_num);
        let mut i: usize = 0;
        while i < features_num
            invariant
                0 <= i <= features_num,
                linear_coefficients@.len() == i,
            decreases features_num - i,
        {
            linear_coefficients.push(random_u64());
            i = i + 1;
        }
        OdessHasher { sampling_rate, linear_coefficients, index_type, features_num }
    }

    /// The features of `chunk`: feature `i` is the least transform under
    /// coefficient `i` of the sampled fingerprints.
    pub fn compute_features(&self, chunk: &[u8]) -> (r: Vec<u64>)
        requires
            self.rate() < 64,
        ensures
            r@.len() == self.coefficients().len(),
            forall|i: int|
                0 <= i < r@.len() ==> is_least_sampled(
                    #[trigger] r@[i],
                    self.coefficients()[i],
                    sample_mask(self.rate()),
                    chunk@,
                ),
            forall|i: int|
                0 <= i < r@.len() ==> #[trigger] r@[i] == feature(
                    self.coefficients()[i],
                    sample_mask(self.rate()),
                    chunk@,
                ),
    {
        proof {
            use_type_invariant(self);
        }
        let n = self.features_num;
        let mut features: Vec<u64> = Vec::new();
        let mut i: usize = 0;
        while i < n
            invariant
                0 <= i <= n,
                features@ == Seq::new(i as nat, |t: int| u64::MAX),
            decreases n - i,
        {
            features.push(u64::MAX);
            i = i + 1;
            assert(features@ =~= Seq::new(i as nat, |t: int| u64::MAX));
        }
        let sr = self.sampling_rate;
        assert(1u64 << sr >= 1) by (bit_vector)
            requires
                sr < 64,
        ;
        let mask = (1u64 << sr) - 1;
        let ghost coefs = self.linear_coefficients@;
        let mut fp: u64 = 0;
        let mut k: usize = 0;
        while k < chunk.len()
            invariant
                0 <= k <= chunk.len(),
                n == coefs.len(),
                coefs == self.linear_coefficients@,
                mask == sample_mask(sr),
                features@.len() == n,
                fp == gear_roll(chunk@.take(k as int), 1),
                forall|t: int| 0 <= t < n ==> #[trigger] features@[t] == feature(coefs[t], mask, chunk@.take(k as int)),
            decreases chunk.len() - k,
        {
            let byte = chunk[k];
            proof {
                assert(chunk@.take(k + 1).drop_last() == chunk@.take(k as int));
                assert(chunk@.take(k + 1).last() == byte);
            }
            fp = (fp << 1usize).wrapping_add(GEAR[byte as usize]);
            if fp & mask == 0 {
                let mut t: usize = 0;
                while t < n
                    invariant
                        0 <= t <= n,
                        k < chunk.len(),
                        n == coefs.len(),
                        coefs == self.linear_coefficients@,
                        features@.len() == n,
                        fp & mask == 0,
                        fp == gear_roll(chunk@.take(k + 1), 1),
                        byte == chunk@.take(k + 1).last(),
                        forall|u: int| 0 <= u < t ==> #[trigger] features@[u] == feature(coefs[u], mask, chunk@.take(k + 1)),
                        forall|u: int| t <= u < n ==> #[trigger] features@[u] == feature(coefs[u], mask, chunk@.take(k as int)),
                        chunk@.take(k + 1).drop_last() == chunk@.take(k as int),
                    decreases n - t,
                {
                    assert(1u64 << 32u64 == 0x1_0000_0000) by (bit_vector);
                    let ghost before = features@;
                    let tr = self.linear_coefficients[t].wrapping_mul(fp).wrapping_add(byte as u64) % (1u64 << 32u64);
                    if features[t] > tr {
                        features.set(t, tr);
                    }
                    proof {
                        let s = chunk@.take(k + 1);
                        assert(s.len() > 0);
                        assert(tr == transform(coefs[t as int], fp, s.last()));
                        assert(feature(coefs[t as int], mask, s) == (if before[t as int] > tr {
                            tr
                        } else {
                            before[t as int]
                        }));
                        assert forall|u: int| 0 <= u < t + 1 implies #[trigger] features@[u] == feature(coefs[u], mask, s) by {
                            if u < t {
                                assert(features@[u] == before[u]);
                            }
                        }
                        assert forall|u: int| t + 1 <= u < n implies #[trigger] features@[u] == feature(coefs[u], mask, chunk@.take(k as int)) by {
                            assert(features@[u] == before[u]);
                        }
                    }
                    t = t + 1;
                }
            } else {
                proof {
                    assert forall|u: int| 0 <= u < n implies #[trigger] features@[u] == feature(coefs[u], mask, chunk@.take(k + 1)) by {}
                }
            }
            k = k + 1;
        }
        assert(chunk@.take(chunk.len() as int) == chunk@);
        proof {
            assert(features@ =~= odess_features(coefs, sr, chunk@));
            lemma_features_are_least(coefs, sr, chunk@);
        }
        features
    }

    /// The Odess hash of `chunk`. With raw features the hash is the
    /// features; with super-features it holds one `DefaultHasher` digest per
    /// column of the sorted feature groups.
    pub fn calculate_hash(&self, chunk: &[u8]) -> (r: OdessHash)
        requires
            self.rate() < 64,
        ensures
            self.kind() matches IndexType::RawFeatured(_) ==> r@ == odess_features(
                self.coefficients(),
                self.rate(),
                chunk@,
            ),
            self.kind() matches IndexType::RawFeatured(_) ==> {
                &&& r@.len() == self.coefficients().len()
                &&& forall|i: int|
                    0 <= i < r@.len() ==> is_least_sampled(
                        #[trigger] r@[i],
                        self.coefficients()[i],
                        sample_mask(self.rate()),
                        chunk@,
                    )
            },
            self.kind() matches IndexType::SuperFeatured(cfg) ==> {
                &&& r@.len() == cfg@.1
                &&& forall|cols: Seq<Vec<u64>>|
                    is_column_split(
                        odess_features(self.coefficients(), self.rate(), chunk@),
                        cfg@.0 as int,
                        cfg@.1 as int,
                        cols,
                    ) ==> r@ == column_digests(cols)
                &&& forall|cols: Seq<Vec<u64>>, i: int, writes: Seq<Seq<u8>>|
                    is_column_split(
                        odess_features(self.coefficients(), self.rate(), chunk@),
                        cfg@.0 as int,
                        cfg@.1 as int,
                        cols,
                    ) && 0 <= i < cfg@.1 && #[trigger] writes_each_word(writes, cols[i]@) ==> r@[i]
                        == DefaultHasher::spec_finish(writes)
            },
    {
        proof {
            use_type_invariant(self);
        }
        let features = self.compute_features(chunk);
        let ghost feats = odess_features(self.coefficients(), self.rate(), chunk@);
        assert(features@ =~= feats);
        proof {
            lemma_features_are_least(self.coefficients(), self.rate(), chunk@);
        }
        match &self.index_type {
            IndexType::SuperFeatured(sf_cfg) => {
                let cols = super_feature_columns(&features, sf_cfg.groups(), sf_cfg.sf_num());
                let mut super_features: Vec<u64> = Vec::new();
                let mut i: usize = 0;
                while i < sf_cfg.sf_num()
                    invariant
                        0 <= i <= sf_cfg@.1,
                        cols@.len() == sf_cfg@.1,
                        super_features@ == column_digests(cols@).take(i as int),
                    decreases sf_cfg@.1 - i,
                {
                    super_features.push(hash_words(&cols[i]));
                    i = i + 1;
                    assert(super_features@ =~= column_digests(cols@).take(i as int));
                }
                proof {
                    assert(column_digests(cols@).take(i as int) =~= column_digests(cols@));
                    assert forall|c: Seq<Vec<u64>>|
                        is_column_split(feats, sf_cfg@.0 as int, sf_cfg@.1 as int, c) implies super_features@
                        == column_digests(c) by {
                        lemma_column_split_unique(feats, sf_cfg@.0 as int, sf_cfg@.1 as int, cols@, c);
                    }
                    lemma_digests_hash_every_word(cols@);
                    assert forall|c: Seq<Vec<u64>>, j: int, writes: Seq<Seq<u8>>|
                        is_column_split(feats, sf_cfg@.0 as int, sf_cfg@.1 as int, c) && 0 <= j < sf_cfg@.1
                            && #[trigger] writes_each_word(writes, c[j]@) implies super_features@[j]
                        == DefaultHasher::spec_finish(writes) by {
                        lemma_column_split_unique(feats, sf_cfg@.0 as int, sf_cfg@.1 as int, cols@, c);
                        lemma_digests_hash_every_word(c);
                    }
                }
                OdessHash { hash: super_features }
            },
            IndexType::RawFeatured(_) => OdessHash { hash: features },
        }
    }
}

impl Default for OdessHasher {
    /// Sampling rate 7, two groups of six features.
    fn default() -> (r: Self)
        ensures
            r.rate() == 7,
            r.kind() matches IndexType::SuperFeatured(cfg) && cfg@ == (2usize, 6usize),
    {
        let config = SuperFeatureConfig::new(2, 6);
        assert(config@ == (2usize, 6usize));
        let index_type = IndexType::SuperFeatured(config);
        assert(features_needed(index_type) == 2 * 6);
        Self::new(7, index_type)
    }
}

} // verus!
