use vstd::prelude::*;

pub mod addr_identity;
pub mod classifier;
pub mod compiled_pattern;
pub mod config;
pub mod events;
pub mod firewall;
pub mod logline;
pub mod message;
pub mod netaddr;
pub mod nft;
pub mod peer;
pub mod pwfilter;
pub mod rate;
pub mod seq_facts;
pub mod text;

verus! {
} // verus!
