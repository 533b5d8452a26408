//! A sequential core of a TinyLFU / Sampled-LFU cache: a count-min frequency
//! sketch with a doorkeeper Bloom filter for admission, a cost-bounded
//! Sampled-LFU victim chooser, a sharded store with lazy TTL expiry, a lossy
//! batching ring for read events, and a facade that ties them together.

pub mod bloom;
pub mod cache;
pub mod haskey;
pub mod cmsketch;
pub mod policy;
pub mod store;
pub mod ring;
pub mod ttl;
pub mod list;
pub mod tiny_lfu;
