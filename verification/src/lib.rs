//! Minimum Steiner trees in Minkowski spaces by branch and bound: a
//! Gilbert-Pollak enumeration of the full topologies, each relaxed to a
//! relatively minimal tree by repeated geometric medians.

pub mod bottleneck;
pub mod brimberg_love;
pub mod chia_franco;
pub mod clock;
pub mod cursors;
pub mod ellipsoid_median;
pub mod enumerator;
pub mod enumerator_data;
pub mod forest;
pub mod geo_median;
pub mod graph;
pub mod hyper_ellipsoid;
pub mod hyperplane;
pub mod mst;
pub mod ostresh;
pub mod point;
pub mod prune_test;
pub mod pruning;
pub mod rmt;
pub mod scalar;
pub mod search;
pub mod sorter;
pub mod space;
pub mod steiner_bnb;
pub mod steiner_tree;
pub mod stepper;
pub mod topology;
pub mod upper_bound;
pub mod uteshev;
pub mod weiszfeld;
