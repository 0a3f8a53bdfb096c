//! Finds the pairs of integers in a collection that sum to a target, by sorting the
//! collection and scanning it with two pointers that converge from both ends.
//!
//! `pairs` holds the scan and the spec functions that define it; `laws` states and proves what holds of
//! every scan: each pair sums to the target, no position is used twice, every pair of
//! values that occurs at two positions is found, and the choice of sort does not matter.

pub mod laws;
pub mod pairs;
