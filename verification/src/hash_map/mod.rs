pub mod chain_hash_map;
pub mod hashing;

pub use self::chain_hash_map::ChainHashMap;
pub use self::hashing::HashKey;
