//! The clusterer that groups chunks whose hashes match within a number of
//! mismatches, and the statistics it keeps.

use vstd::prelude::*;

verus! {

/// Groups chunks whose hashes match, allowing `match_range` mismatches.
pub struct EqClusterer {
    match_range: usize,
}

impl EqClusterer {
    /// The number of mismatches allowed.
    pub closed spec fn range(&self) -> usize {
        self.match_range
    }

    /// A clusterer that allows `match_range` mismatches.
    pub fn new(match_range: usize) -> (r: Self)
        ensures
            r.range() == match_range,
    {
        EqClusterer { match_range }
    }

    /// Counts one more processed chunk.
    pub fn update_cluster_stats(&self, cluster_stats: &mut ClusterStats)
        requires
            old(cluster_stats).total_cluster_size < usize::MAX,
        ensures
            final(cluster_stats).total_cluster_size == old(cluster_stats).total_cluster_size + 1,
            final(cluster_stats).number_of_clusters == old(cluster_stats).number_of_clusters,
    {
        cluster_stats.total_cluster_size = cluster_stats.total_cluster_size + 1;
    }
}

impl Default for EqClusterer {
    /// Exact matches only.
    fn default() -> (r: Self)
        ensures
            r.range() == 0,
    {
        Self::new(0)
    }
}

/// How many chunks were processed and how many clusters they formed.
pub struct ClusterStats {
    pub total_cluster_size: usize,
    pub number_of_clusters: usize,
}

impl ClusterStats {
    /// No chunk, no cluster.
    pub fn new() -> (r: Self)
        ensures
            r.total_cluster_size == 0,
            r.number_of_clusters == 0,
    {
        ClusterStats { total_cluster_size: 0, number_of_clusters: 0 }
    }
}

} // verus!
