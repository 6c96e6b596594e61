pub mod bloom_filters;
pub mod ciphers;
pub mod dynamic_programming;
pub mod filter_laws;
pub mod graph;
pub mod math;
pub mod merge_sort;
pub mod sorting;

pub use bloom_filters::{
    BasicBloomFilter, BloomFilter, FilterConfigError, FilterItem, MultiBinaryBloomFilter,
    SingleBinaryBloomFilter,
};
pub use ciphers::theoretical_rot13;
pub use dynamic_programming::is_subsequence;
pub use dynamic_programming::word_break;
pub use math::perfect_cube_binary_search;
pub use sorting::partition;
pub use sorting::quick_sort;
pub use merge_sort::{merge_sort, merge_sort_cmp};
pub use graph::{DiGraph, Graph, UnDiGraph};
