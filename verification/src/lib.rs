//! A licence-key service core: a store of licence records with a
//! transactionally enforced per-key device-binding quota, and an in-memory
//! cache of externally provisioned keys that survives bad reloads.
//!
//! The store and the cache are plain in-memory structures with full
//! functional contracts; callers that need durability or file watching wrap
//! them and feed them the bytes and clock readings they ask for.

pub mod admin;
pub mod custom_keys;
pub mod database;
pub mod laws;

pub use admin::CreateKeyError;
pub use custom_keys::CacheError;
pub use custom_keys::CustomKey;
pub use custom_keys::CustomKeyConfig;
pub use custom_keys::CustomKeyManager;
pub use database::BindOutcome;
pub use database::Binding;
pub use database::Database;
pub use database::LicenceError;
pub use database::LicenceKey;
pub use database::Peer;
pub use database::PeerError;
pub use database::RejectReason;
