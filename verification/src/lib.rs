//! Suffix arrays and longest-common-prefix arrays over byte texts, with
//! proofs.
//!
//! The suffix array is built by induced sorting, in linear time, and is
//! proved to be the sorted list of all suffixes. Three independent
//! algorithms derive the longest-common-prefix array from it, and are
//! proved to agree.
//!
//! - [`order`] defines the order of the suffixes of a text and the prefix
//!   that two suffixes share;
//! - [`permutation`] treats permutations and their inverses;
//! - [`index`] holds the integer types that positions are stored in;
//! - [`suffix_array`] builds and owns suffix arrays and their inverses;
//! - [`lcp_array`] builds longest-common-prefix arrays.
pub mod index;
pub mod order;
pub mod permutation;
pub mod suffix_array;
pub mod lcp_array;
