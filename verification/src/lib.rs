//! Core engine of a Nostr-style relay: event validation, filter matching,
//! an indexed event store with tombstoning, and a subscription registry
//! that fans events out to per-connection mailboxes.
pub mod canonical;
pub mod crypto;
pub mod event;
pub mod filter;
pub mod hexcode;
pub mod order;
pub mod registry;
pub mod relay;
pub mod store;
pub mod text;

pub use hexcode::decode_hex;
pub use hexcode::encode_hex;
pub use text::chars_of;
pub use text::starts_with;
