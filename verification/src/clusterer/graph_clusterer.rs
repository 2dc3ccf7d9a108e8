//! Clustering of chunk keys by proximity: every key joins the cluster of
//! the nearest root within `max_weight_edge`, or starts a cluster of its
//! own. The parent links form a union-find forest that stays flat: every
//! vertex points at a root.

use std::collections::HashMap;

use vstd::multiset::Multiset;
use vstd::prelude::*;

verus! {

/// The lowest key of the search window around `hash`.
pub open spec fn window_low(hash: u32, max: u32) -> int {
    if hash >= max {
        hash - max
    } else {
        0
    }
}

/// The highest key of the search window around `hash`.
pub open spec fn window_high(hash: u32, max: u32) -> int {
    if hash + max <= u32::MAX {
        hash + max
    } else {
        u32::MAX as int
    }
}

/// The distance between two keys.
pub open spec fn key_distance(a: u32, b: u32) -> int {
    if a >= b {
        a - b
    } else {
        b - a
    }
}

/// Every vertex points at a vertex that points at itself.
pub open spec fn is_flat(m: Map<u32, u32>) -> bool {
    forall|k: u32| #[trigger] m.dom().contains(k) ==> m.dom().contains(m[k]) && m[m[k]] == m[k]
}

/// The root reached from `k`: its parent when it is a vertex, else itself.
pub open spec fn root_of(m: Map<u32, u32>, k: u32) -> u32 {
    if m.dom().contains(k) {
        m[k]
    } else {
        k
    }
}

/// Vertex `o` lies in the window around `hash` and its root is within
/// `max` of `hash` (and closer than `u32::MAX`).
pub open spec fn qualifies(m: Map<u32, u32>, max: u32, hash: u32, o: u32) -> bool {
    &&& window_low(hash, max) <= o <= window_high(hash, max)
    &&& m.dom().contains(o)
    &&& key_distance(m[o], hash) <= max
    &&& key_distance(m[o], hash) < u32::MAX
}

/// Vertex `o` qualifies, no qualifying vertex has a closer root, and every
/// qualifying vertex before it has a farther one.
pub open spec fn is_nearest(m: Map<u32, u32>, max: u32, hash: u32, o: u32) -> bool {
    &&& qualifies(m, max, hash, o)
    &&& forall|q: u32| #[trigger]
        qualifies(m, max, hash, q) ==> key_distance(m[q], hash) >= key_distance(m[o], hash)
    &&& forall|q: u32|
        q < o && #[trigger] qualifies(m, max, hash, q) ==> key_distance(m[q], hash) > key_distance(
            m[o],
            hash,
        )
}

/// The parent `hash` gets: the root of the nearest qualifying vertex, or
/// `hash` itself when none qualifies.
pub open spec fn nearest_parent(m: Map<u32, u32>, max: u32, hash: u32) -> u32 {
    if exists|o: u32| is_nearest(m, max, hash, o) {
        m[choose|o: u32| is_nearest(m, max, hash, o)]
    } else {
        hash
    }
}

/// The parents given to `keys`, one after the other, starting from the
/// forest `m`, and the forest afterwards.
pub open spec fn assignment(m: Map<u32, u32>, max: u32, keys: Seq<u32>) -> (Map<u32, u32>, Seq<u32>)
    decreases keys.len(),
{
    if keys.len() == 0 {
        (m, Seq::empty())
    } else {
        let prev = assignment(m, max, keys.drop_last());
        let p = nearest_parent(prev.0, max, keys.last());
        (prev.0.insert(keys.last(), p), prev.1.push(p))
    }
}

/// The keys that started a cluster of their own (their parent is
/// themselves), in order.
pub open spec fn cluster_roots(keys: Seq<u32>, parents: Seq<u32>) -> Seq<u32>
    decreases keys.len(),
{
    if keys.len() == 0 || parents.len() != keys.len() {
        Seq::empty()
    } else {
        let r = cluster_roots(keys.drop_last(), parents.drop_last());
        if keys.last() == parents.last() {
            r.push(keys.last())
        } else {
            r
        }
    }
}

/// The distances recorded per cluster: a key that starts a cluster opens
/// an empty list under its own key (replacing any earlier one); any other
/// key appends its distance to its parent's list, when that list exists.
pub open spec fn cluster_distances(keys: Seq<u32>, parents: Seq<u32>) -> Map<u32, Seq<usize>>
    decreases keys.len(),
{
    if keys.len() == 0 || parents.len() != keys.len() {
        Map::empty()
    } else {
        let d = cluster_distances(keys.drop_last(), parents.drop_last());
        let k = keys.last();
        let p = parents.last();
        if k == p {
            d.insert(k, Seq::empty())
        } else if d.dom().contains(p) {
            d.insert(p, d[p].push(key_distance(k, p) as usize))
        } else {
            d
        }
    }
}

/// For each parent, the positions of the keys that joined it, in order.
pub open spec fn cluster_members(parents: Seq<u32>) -> Map<u32, Seq<usize>>
    decreases parents.len(),
{
    if parents.len() == 0 {
        Map::empty()
    } else {
        let c = cluster_members(parents.drop_last());
        let p = parents.last();
        let earlier = if c.dom().contains(p) {
            c[p]
        } else {
            Seq::empty()
        };
        c.insert(p, earlier.push((parents.len() - 1) as usize))
    }
}

/// The lists of a map of lists, as sequences.
pub open spec fn lists_view(h: HashMap<u32, Vec<usize>>) -> Map<u32, Seq<usize>> {
    h@.map_values(|v: Vec<usize>| v@)
}

/// How many keys each cluster holds, as a multiset of parents.
pub open spec fn sizes_multiset(h: Map<u32, usize>) -> Multiset<u32> {
    Multiset::from_map(h.map_values(|c: usize| c as nat))
}

/// A vertex of the union-find forest.
struct Vertex {
    /// The parent key; a root is its own parent.
    parent: u32,
}

impl Vertex {
    /// A vertex whose parent is `key`.
    fn new(key: u32) -> (r: Vertex)
        ensures
            r.parent == key,
    {
        Vertex { parent: key }
    }
}

/// Groups keys whose roots lie within `max_weight_edge` of each other.
pub struct GraphClusterer {
    vertices: HashMap<u32, Vertex>,
    max_weight_edge: u32,
}

impl GraphClusterer {
    #[verifier::type_invariant]
    spec fn flat(self) -> bool {
        is_flat(self.parents())
    }

    /// The parent of each vertex.
    pub closed spec fn parents(&self) -> Map<u32, u32> {
        self.vertices@.map_values(|v: Vertex| v.parent)
    }

    /// The largest distance at which a key joins a cluster.
    pub closed spec fn max_weight(&self) -> u32 {
        self.max_weight_edge
    }

    /// An empty clusterer.
    pub fn new(max_weight_edge: u32) -> (r: GraphClusterer)
        ensures
            r.parents() == Map::<u32, u32>::empty(),
            r.max_weight() == max_weight_edge,
    {
        let r = GraphClusterer { max_weight_edge, vertices: HashMap::new() };
        assert(r.parents() =~= Map::<u32, u32>::empty());
        r
    }

    /// The root of `parent_key`, read without changing anything.
    fn find_root_parent(&self, parent_key: u32) -> (r: u32)
        ensures
            r == root_of(self.parents(), parent_key),
    {
        proof {
            use_type_invariant(self);
        }
        let ghost m = self.parents();
        let mut k = parent_key;
        loop
            invariant
                m == self.parents(),
                is_flat(m),
                root_of(m, k) == root_of(m, parent_key),
            decreases (if m.dom().contains(k) && m[k] != k {
                1int
            } else {
                0int
            }),
        {
            match self.vertices.get(&k) {
                Some(vertex) => {
                    if k == vertex.parent {
                        return k;
                    }
                    k = vertex.parent;
                },
                None => {
                    return k;
                },
            }
        }
    }

    /// The root of vertex `hash_set`, compressing its path on the way.
    fn find_set(&mut self, hash_set: u32) -> (r: u32)
        requires
            old(self).parents().dom().contains(hash_set),
        ensures
            r == root_of(old(self).parents(), hash_set),
            final(self).parents() == old(self).parents(),
            final(self).max_weight() == old(self).max_weight(),
        decreases (if old(self).parents()[hash_set] != hash_set {
            1int
        } else {
            0int
        }),
    {
        proof {
            use_type_invariant(&*self);
        }
        let ghost m = self.parents();
        let parent = match self.vertices.get(&hash_set) {
            Some(vertex) => vertex.parent,
            None => hash_set,
        };
        if hash_set != parent {
            let root = self.find_set(parent);
            let mut vertices = HashMap::new();
            std::mem::swap(&mut vertices, &mut self.vertices);
            vertices.insert(hash_set, Vertex::new(root));
            proof {
                assert(vertices@.map_values(|v: Vertex| v.parent) =~= m);
            }
            self.vertices = vertices;
            root
        } else {
            parent
        }
    }

    /// The parent for `hash`: the root of the nearest vertex in the window
    /// around it whose root is within `max_weight_edge`, the first such
    /// vertex on a tie; `hash` itself when there is none.
    fn find_nearest_parent(&self, hash: u32) -> (r: u32)
        ensures
            r == nearest_parent(self.parents(), self.max_weight(), hash),
    {
        proof {
            use_type_invariant(self);
        }
        let ghost m = self.parents();
        let max = self.max_weight_edge;
        let mut min_dist: u32 = u32::MAX;
        let mut parent_hash: u32 = hash;
        let start = hash.saturating_sub(max);
        let end = hash.saturating_add(max);
        let ghost mut found: bool = false;
        let ghost mut best: u32 = 0;
        let mut other: u64 = start as u64;
        while other <= end as u64
            invariant
                m == self.parents(),
                is_flat(m),
                max == self.max_weight(),
                start == window_low(hash, max),
                end == window_high(hash, max),
                start <= other <= end as u64 + 1,
                !found ==> {
                    &&& min_dist == u32::MAX
                    &&& parent_hash == hash
                    &&& forall|q: u32| start <= q < other ==> !#[trigger] qualifies(m, max, hash, q)
                },
                found ==> {
                    &&& start <= best < other
                    &&& qualifies(m, max, hash, best)
                    &&& parent_hash == m[best]
                    &&& min_dist == key_distance(m[best], hash)
                    &&& forall|q: u32|
                        start <= q < other && #[trigger] qualifies(m, max, hash, q) ==> key_distance(
                            m[q],
                            hash,
                        ) >= min_dist
                    &&& forall|q: u32|
                        start <= q < best && #[trigger] qualifies(m, max, hash, q) ==> key_distance(
                            m[q],
                            hash,
                        ) > min_dist
                },
            decreases end as u64 + 1 - other,
        {
            let o = other as u32;
            match self.vertices.get(&o) {
                Some(vertex) => {
                    let root = self.find_root_parent(vertex.parent);
                    let dist = if root >= hash {
                        root - hash
                    } else {
                        hash - root
                    };
                    assert(root == m[o]);
                    if dist < min_dist && dist <= max {
                        min_dist = dist;
                        parent_hash = root;
                        proof {
                            found = true;
                            best = o;
                        }
                    }
                },
                None => {},
            }
            other = other + 1;
        }
        proof {
            if found {
                assert forall|q: u32| #[trigger] qualifies(m, max, hash, q) implies key_distance(m[q], hash)
                    >= key_distance(m[best], hash) by {}
                assert(is_nearest(m, max, hash, best));
                let c = choose|o: u32| is_nearest(m, max, hash, o);
                assert(is_nearest(m, max, hash, c));
                if c < best {
                    assert(qualifies(m, max, hash, c));
                } else if best < c {
                    assert(qualifies(m, max, hash, best));
                }
                assert(c == best);
            } else {
                assert forall|o: u32| !is_nearest(m, max, hash, o) by {
                    if window_low(hash, max) <= o <= window_high(hash, max) {
                        assert(!qualifies(m, max, hash, o));
                    }
                }
            }
        }
        parent_hash
    }

    /// Gives `hash` the parent that `find_nearest_parent` finds and
    /// returns it.
    fn set_parent_vertex(&mut self, hash: u32) -> (r: u32)
        ensures
            r == nearest_parent(old(self).parents(), old(self).max_weight(), hash),
            final(self).parents() == old(self).parents().insert(hash, r),
            final(self).max_weight() == old(self).max_weight(),
    {
        proof {
            use_type_invariant(&*self);
        }
        let ghost m = self.parents();
        let parent_hash = self.find_nearest_parent(hash);
        proof {
            lemma_nearest_keeps_flat(m, self.max_weight(), hash);
        }
        let mut vertices = HashMap::new();
        std::mem::swap(&mut vertices, &mut self.vertices);
        vertices.insert(hash, Vertex::new(parent_hash));
        proof {
            assert(vertices@.map_values(|v: Vertex| v.parent) =~= m.insert(hash, parent_hash));
        }
        self.vertices = vertices;
        parent_hash
    }
}

/// What clustering a run of keys gives: how many keys, how many clusters,
/// the size of each cluster and the distances of its keys to its parent.
pub struct ClusterStats {
    pub total_cluster_size: usize,
    pub number_of_clusters: usize,
    pub number_of_vertices_in_cluster: HashMap<u32, usize>,
    pub distance_to_vertices_in_cluster: HashMap<u32, Vec<usize>>,
}

impl ClusterStats {
    /// Nothing counted yet.
    pub fn new() -> (r: Self)
        ensures
            r.total_cluster_size == 0,
            r.number_of_clusters == 0,
            r.number_of_vertices_in_cluster@ == Map::<u32, usize>::empty(),
            lists_view(r.distance_to_vertices_in_cluster) == Map::<u32, Seq<usize>>::empty(),
    {
        let r = ClusterStats {
            total_cluster_size: 0,
            number_of_clusters: 0,
            number_of_vertices_in_cluster: HashMap::new(),
            distance_to_vertices_in_cluster: HashMap::new(),
        };
        assert(lists_view(r.distance_to_vertices_in_cluster) =~= Map::<u32, Seq<usize>>::empty());
        r
    }
}

impl GraphClusterer {
    /// Records that `key` joined the cluster of `parent_key`: one more key
    /// in that cluster; a key that is its own parent opens a cluster (an
    /// empty distance list and one more cluster), any other key adds its
    /// distance to its parent's list when there is one.
    fn update_cluster_stats(
        &self,
        key: u32,
        parent_key: u32,
        cluster_stats: &mut ClusterStats,
        parent_vertices: &mut Vec<u32>,
    )
        requires
            old(cluster_stats).number_of_vertices_in_cluster@.contains_key(parent_key)
                ==> old(cluster_stats).number_of_vertices_in_cluster@[parent_key] < usize::MAX,
            key == parent_key ==> old(cluster_stats).number_of_clusters < usize::MAX,
        ensures
            final(cluster_stats).total_cluster_size == old(cluster_stats).total_cluster_size,
            final(cluster_stats).number_of_vertices_in_cluster@ == old(
                cluster_stats,
            ).number_of_vertices_in_cluster@.insert(
                parent_key,
                if old(cluster_stats).number_of_vertices_in_cluster@.contains_key(parent_key) {
                    (old(cluster_stats).number_of_vertices_in_cluster@[parent_key] + 1) as usize
                } else {
                    1usize
                },
            ),
            key == parent_key ==> {
                &&& final(parent_vertices)@ == old(parent_vertices)@.push(key)
                &&& final(cluster_stats).number_of_clusters == old(cluster_stats).number_of_clusters + 1
                &&& lists_view(final(cluster_stats).distance_to_vertices_in_cluster) == lists_view(
                    old(cluster_stats).distance_to_vertices_in_cluster,
                ).insert(key, Seq::empty())
            },
            key != parent_key ==> {
                let d = lists_view(old(cluster_stats).distance_to_vertices_in_cluster);
                &&& final(parent_vertices)@ == old(parent_vertices)@
                &&& final(cluster_stats).number_of_clusters == old(cluster_stats).number_of_clusters
                &&& lists_view(final(cluster_stats).distance_to_vertices_in_cluster) == if d.dom().contains(
                    parent_key,
                ) {
                    d.insert(parent_key, d[parent_key].push(key_distance(key, parent_key) as usize))
                } else {
                    d
                }
            },
    {
        let count = match cluster_stats.number_of_vertices_in_cluster.get(&parent_key) {
            Some(c) => *c + 1,
            None => 1,
        };
        cluster_stats.number_of_vertices_in_cluster.insert(parent_key, count);
        let ghost d = lists_view(cluster_stats.distance_to_vertices_in_cluster);
        if key == parent_key {
            parent_vertices.push(key);
            cluster_stats.distance_to_vertices_in_cluster.insert(key, Vec::new());
            cluster_stats.number_of_clusters = cluster_stats.number_of_clusters + 1;
            assert(lists_view(cluster_stats.distance_to_vertices_in_cluster) =~= d.insert(key, Seq::empty()));
        } else {
            let dist = if key >= parent_key {
                key - parent_key
            } else {
                parent_key - key
            };
            match cluster_stats.distance_to_vertices_in_cluster.remove(&parent_key) {
                Some(list) => {
                    let mut list = list;
                    list.push(dist as usize);
                    cluster_stats.distance_to_vertices_in_cluster.insert(parent_key, list);
                    assert(lists_view(cluster_stats.distance_to_vertices_in_cluster) =~= d.insert(
                        parent_key,
                        d[parent_key].push(key_distance(key, parent_key) as usize),
                    ));
                },
                None => {
                    assert(lists_view(cluster_stats.distance_to_vertices_in_cluster) =~= d);
                },
            }
        }
    }

    /// Adds point `point` to the cluster of `parent_key`.
    fn add_to_cluster(&self, clusters: &mut HashMap<u32, Vec<usize>>, parent_key: u32, point: usize)
        ensures
            lists_view(*final(clusters)) == lists_view(*old(clusters)).insert(
                parent_key,
                (if lists_view(*old(clusters)).dom().contains(parent_key) {
                    lists_view(*old(clusters))[parent_key]
                } else {
                    Seq::empty()
                }).push(point),
            ),
    {
        let ghost c = lists_view(*clusters);
        let mut cluster = match clusters.remove(&parent_key) {
            Some(list) => list,
            None => Vec::new(),
        };
        cluster.push(point);
        clusters.insert(parent_key, cluster);
        assert(lists_view(*clusters) =~= c.insert(
            parent_key,
            (if c.dom().contains(parent_key) {
                c[parent_key]
            } else {
                Seq::empty()
            }).push(point),
        ));
    }
}

impl GraphClusterer {
    /// Clusters `keys` in order: each key gets the parent that
    /// `find_nearest_parent` finds and joins that parent's cluster. Returns
    /// the positions of the keys in each cluster, the statistics, and the
    /// keys that started a cluster, in order.
    pub fn clusterize(&mut self, keys: &Vec<u32>) -> (r: (HashMap<u32, Vec<usize>>, ClusterStats, Vec<u32>))
        ensures
            final(self).max_weight() == old(self).max_weight(),
            final(self).parents() == assignment(old(self).parents(), old(self).max_weight(), keys@).0,
            ({
                let ps = assignment(old(self).parents(), old(self).max_weight(), keys@).1;
                let counts = r.1.number_of_vertices_in_cluster@;
                &&& lists_view(r.0) == cluster_members(ps)
                &&& r.1.total_cluster_size == keys.len()
                &&& forall|p: u32| #[trigger] counts.contains_key(p) <==> ps.contains(p)
                &&& forall|p: u32| #[trigger]
                    counts.contains_key(p) ==> counts[p] == ps.to_multiset().count(p) && counts[p] >= 1
                &&& sizes_multiset(counts).len() == r.1.total_cluster_size
                &&& r.2@ == cluster_roots(keys@, ps)
                &&& r.1.number_of_clusters == r.2@.len()
                &&& lists_view(r.1.distance_to_vertices_in_cluster) == cluster_distances(keys@, ps)
            }),
    {
        let ghost m0 = self.parents();
        let ghost max = self.max_weight();
        let mut clusters: HashMap<u32, Vec<usize>> = HashMap::new();
        let mut cluster_stats = ClusterStats::new();
        let mut parent_vertices: Vec<u32> = Vec::new();
        let ghost mut ps: Seq<u32> = Seq::empty();
        proof {
            assert(keys@.take(0) =~= Seq::<u32>::empty());
            assert(lists_view(clusters) =~= Map::<u32, Seq<usize>>::empty());
        }
        let mut i: usize = 0;
        while i < keys.len()
            invariant
                0 <= i <= keys.len(),
                max == self.max_weight(),
                assignment(m0, max, keys@.take(i as int)) == (self.parents(), ps),
                ps.len() == i,
                cluster_stats.total_cluster_size == i,
                forall|p: u32| #[trigger]
                    cluster_stats.number_of_vertices_in_cluster@.contains_key(p) <==> ps.contains(p),
                forall|p: u32| #[trigger]
                    cluster_stats.number_of_vertices_in_cluster@.contains_key(p)
                        ==> cluster_stats.number_of_vertices_in_cluster@[p] == ps.to_multiset().count(p),
                parent_vertices@ == cluster_roots(keys@.take(i as int), ps),
                cluster_stats.number_of_clusters == parent_vertices@.len(),
                lists_view(cluster_stats.distance_to_vertices_in_cluster) == cluster_distances(keys@.take(i as int), ps),
                lists_view(clusters) == cluster_members(ps),
            decreases keys.len() - i,
        {
            let key = keys[i];
            cluster_stats.total_cluster_size = cluster_stats.total_cluster_size + 1;
            let parent_key = self.set_parent_vertex(key);
            proof {
                broadcast use vstd::multiset::group_multiset_axioms;
                vstd::seq_lib::to_multiset_len(ps);
                lemma_roots_len(keys@.take(i as int), ps);
            }
            self.update_cluster_stats(key, parent_key, &mut cluster_stats, &mut parent_vertices);
            self.add_to_cluster(&mut clusters, parent_key, i);
            proof {
                broadcast use vstd::multiset::group_multiset_axioms;
                let t = keys@.take(i + 1);
                let old_ps = ps;
                ps = ps.push(parent_key);
                assert(t.drop_last() =~= keys@.take(i as int));
                assert(t.last() == key);
                assert(ps.drop_last() =~= old_ps);
                vstd::seq_lib::to_multiset_build(old_ps, parent_key);
                vstd::seq_lib::to_multiset_contains(old_ps, parent_key);
                assert forall|p: u32| #[trigger]
                    cluster_stats.number_of_vertices_in_cluster@.contains_key(p)
                        implies cluster_stats.number_of_vertices_in_cluster@[p] == ps.to_multiset().count(p) by {
                    assert(ps.to_multiset() == old_ps.to_multiset().insert(parent_key));
                }
                assert forall|p: u32| #[trigger]
                    cluster_stats.number_of_vertices_in_cluster@.contains_key(p) <==> ps.contains(p) by {
                    if p == parent_key {
                        assert(ps[i as int] == p);
                    } else if old_ps.contains(p) {
                        let j = choose|j: int| 0 <= j < old_ps.len() && old_ps[j] == p;
                        assert(ps[j] == p);
                    } else if ps.contains(p) {
                        let j = choose|j: int| 0 <= j < ps.len() && ps[j] == p;
                        assert(j != i);
                        assert(old_ps[j] == p);
                    }
                }
            }
            i = i + 1;
        }
        proof {
            assert(keys@.take(keys.len() as int) =~= keys@);
            lemma_sizes_sum_to_total(ps, cluster_stats.number_of_vertices_in_cluster@);
            assert forall|p: u32| #[trigger]
                cluster_stats.number_of_vertices_in_cluster@.contains_key(p) implies
                cluster_stats.number_of_vertices_in_cluster@[p] >= 1 by {
                vstd::seq_lib::to_multiset_contains(ps, p);
            }
        }
        (clusters, cluster_stats, parent_vertices)
    }
}

/// A run records at most one cluster per key.
proof fn lemma_roots_len(keys: Seq<u32>, parents: Seq<u32>)
    ensures
        cluster_roots(keys, parents).len() <= keys.len(),
    decreases keys.len(),
{
    if keys.len() > 0 && parents.len() == keys.len() {
        lemma_roots_len(keys.drop_last(), parents.drop_last());
    }
}

/// When the cluster sizes count the parents given, they add up to the
/// number of keys clustered.
pub proof fn lemma_sizes_sum_to_total(parents: Seq<u32>, counts: Map<u32, usize>)
    requires
        counts.dom().finite(),
        forall|p: u32| #[trigger] counts.contains_key(p) <==> parents.contains(p),
        forall|p: u32| #[trigger] counts.contains_key(p) ==> counts[p] == parents.to_multiset().count(p),
    ensures
        sizes_multiset(counts) == parents.to_multiset(),
        sizes_multiset(counts).len() == parents.len(),
{
    broadcast use vstd::multiset::group_multiset_axioms;
    let n = counts.map_values(|c: usize| c as nat);
    assert(n.dom() =~= counts.dom());
    assert forall|p: u32| sizes_multiset(counts).count(p) == parents.to_multiset().count(p) by {
        vstd::seq_lib::to_multiset_contains(parents, p);
        if counts.contains_key(p) {
            assert(n.dom().contains(p));
        }
    }
    assert(sizes_multiset(counts) =~= parents.to_multiset());
    vstd::seq_lib::to_multiset_len(parents);
}

/// Every key is given a parent within `max` of it, one parent per key, and
/// the forest stays flat.
pub proof fn lemma_parents_within_reach(m: Map<u32, u32>, max: u32, keys: Seq<u32>)
    requires
        is_flat(m),
    ensures
        ({
            let a = assignment(m, max, keys);
            &&& a.1.len() == keys.len()
            &&& is_flat(a.0)
            &&& forall|i: int| 0 <= i < keys.len() ==> key_distance(keys[i], #[trigger] a.1[i]) <= max
        }),
    decreases keys.len(),
{
    if keys.len() > 0 {
        let prev = assignment(m, max, keys.drop_last());
        lemma_parents_within_reach(m, max, keys.drop_last());
        lemma_nearest_keeps_flat(prev.0, max, keys.last());
        let a = assignment(m, max, keys);
        assert forall|i: int| 0 <= i < keys.len() implies key_distance(keys[i], #[trigger] a.1[i]) <= max by {
            if i < keys.len() - 1 {
                assert(keys[i] == keys.drop_last()[i]);
                assert(a.1[i] == prev.1[i]);
            }
        }
    }
}

/// Clustering distinct keys with a fresh clusterer, every cluster's
/// distance list holds one entry per key of the cluster but its parent.
pub proof fn lemma_distances_match_sizes(max: u32, keys: Seq<u32>)
    requires
        keys.no_duplicates(),
    ensures
        ({
            let ps = assignment(Map::empty(), max, keys).1;
            let d = cluster_distances(keys, ps);
            forall|p: u32|
                #[trigger] ps.contains(p) ==> d.dom().contains(p) && d[p].len() + 1 == ps.to_multiset().count(p)
        }),
{
    lemma_fresh_run(max, keys);
}

/// What a fresh run over distinct keys keeps: one parent per key, the
/// vertices are the keys, every root is some key's parent, every parent is
/// a root, and every parent's distance list is one shorter than its
/// cluster.
proof fn lemma_fresh_run(max: u32, keys: Seq<u32>)
    requires
        keys.no_duplicates(),
    ensures
        ({
            let a = assignment(Map::empty(), max, keys);
            let d = cluster_distances(keys, a.1);
            &&& a.1.len() == keys.len()
            &&& is_flat(a.0)
            &&& forall|k: u32| #[trigger] a.0.dom().contains(k) <==> keys.contains(k)
            &&& forall|r: u32| #[trigger] a.0.dom().contains(r) && a.0[r] == r ==> a.1.contains(r)
            &&& forall|p: u32| #[trigger] a.1.contains(p) ==> a.0.dom().contains(p) && a.0[p] == p
            &&& forall|p: u32|
                #[trigger] a.1.contains(p) ==> d.dom().contains(p) && d[p].len() + 1 == a.1.to_multiset().count(
                    p,
                )
        }),
    decreases keys.len(),
{
    broadcast use vstd::multiset::group_multiset_axioms;

    let a = assignment(Map::empty(), max, keys);
    if keys.len() == 0 {
        assert(a.1 =~= Seq::<u32>::empty());
        assert(is_flat(a.0));
    } else {
        let init = keys.drop_last();
        let k = keys.last();
        assert(init.no_duplicates());
        lemma_fresh_run(max, init);
        let prev = assignment(Map::empty(), max, init);
        let m = prev.0;
        let ps = prev.1;
        let d0 = cluster_distances(init, ps);
        let p = nearest_parent(m, max, k);
        lemma_nearest_keeps_flat(m, max, k);
        assert(!init.contains(k)) by {
            if init.contains(k) {
                let j = choose|j: int| 0 <= j < init.len() && init[j] == k;
                assert(keys[j] == keys[keys.len() - 1]);
            }
        }
        assert(!m.dom().contains(k));
        assert(!ps.contains(k));
        assert(a.0 == m.insert(k, p));
        assert(a.1 == ps.push(p));
        assert(a.1.drop_last() =~= ps);
        let d = cluster_distances(keys, a.1);
        vstd::seq_lib::to_multiset_build(ps, p);
        vstd::seq_lib::to_multiset_contains(ps, p);
        assert forall|x: u32| #[trigger] a.0.dom().contains(x) <==> keys.contains(x) by {
            if keys.contains(x) && x != k {
                let j = choose|j: int| 0 <= j < keys.len() && keys[j] == x;
                assert(init[j] == x);
            }
            if init.contains(x) {
                let j = choose|j: int| 0 <= j < init.len() && init[j] == x;
                assert(keys[j] == x);
            }
            if x == k {
                assert(keys[keys.len() - 1] == x);
            }
        }
        assert forall|x: u32| #[trigger] a.1.contains(x) <==> ps.contains(x) || x == p by {
            if a.1.contains(x) && x != p {
                let j = choose|j: int| 0 <= j < a.1.len() && a.1[j] == x;
                assert(ps[j] == x);
            }
            if ps.contains(x) {
                let j = choose|j: int| 0 <= j < ps.len() && ps[j] == x;
                assert(a.1[j] == x);
            }
            assert(a.1[ps.len() as int] == p);
        }
        assert forall|r: u32| #[trigger] a.0.dom().contains(r) && a.0[r] == r implies a.1.contains(r) by {
            if r != k {
                assert(m.dom().contains(r) && m[r] == r);
                assert(ps.contains(r));
            }
        }
        assert forall|x: u32| #[trigger] a.1.contains(x) implies a.0.dom().contains(x) && a.0[x] == x by {
            if x != p {
                assert(ps.contains(x));
                assert(x != k);
            }
        }
        assert forall|x: u32| #[trigger] a.1.contains(x) implies d.dom().contains(x) && d[x].len() + 1
            == a.1.to_multiset().count(x) by {
            assert(a.1.to_multiset() == ps.to_multiset().insert(p));
            if x != p {
                assert(ps.contains(x));
                assert(x != k);
            }
        }
    }
}

/// In a flat forest, the parent that `hash` gets is a root, is `hash`
/// itself when `hash` is already a root, and is within `max` of `hash`;
/// giving it to `hash` keeps the forest flat.
pub proof fn lemma_nearest_keeps_flat(m: Map<u32, u32>, max: u32, hash: u32)
    requires
        is_flat(m),
    ensures
        ({
            let p = nearest_parent(m, max, hash);
            &&& p == hash || (m.dom().contains(p) && m[p] == p)
            &&& m.dom().contains(hash) && m[hash] == hash ==> p == hash
            &&& key_distance(hash, p) <= max
            &&& is_flat(m.insert(hash, p))
        }),
{
    let p = nearest_parent(m, max, hash);
    if exists|o: u32| is_nearest(m, max, hash, o) {
        let c = choose|o: u32| is_nearest(m, max, hash, o);
        assert(m.dom().contains(c));
        if m.dom().contains(hash) && m[hash] == hash {
            assert(qualifies(m, max, hash, hash));
            assert(key_distance(m[hash], hash) == 0);
            assert(key_distance(m[c], hash) <= 0);
        }
    }
    let n = m.insert(hash, p);
    assert forall|k: u32| #[trigger] n.dom().contains(k) implies n.dom().contains(n[k]) && n[n[k]] == n[k] by {
        if k != hash {
            assert(m.dom().contains(k));
            if m[k] == hash {
                assert(m[hash] == hash);
            }
        }
    }
}

impl Default for GraphClusterer {
    /// A clusterer that joins keys at distance at most 10.
    fn default() -> (r: Self)
        ensures
            r.parents() == Map::<u32, u32>::empty(),
            r.max_weight() == 10,
    {
        Self::new(10)
    }
}

} // verus!
