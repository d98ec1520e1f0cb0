//! A Kademlia distributed hash table node: 160-bit identifiers with XOR
//! distance, a splitting routing table of bounded LRU buckets, an expiring
//! key/value store and the message dispatcher that ties them together.

pub mod id;
pub mod kbucket;
pub mod routing;
pub mod assoc;
pub mod storage;
pub mod rpc;
pub mod node;
