//! Server-side core of a multi-device, end-to-end-encrypted note store.
//!
//! A single symmetric key encrypts a user's notes; the key itself is never
//! seen by the server.  Each registered device owns a public key, and the
//! server only relays the symmetric key as opaque blobs encrypted under those
//! public keys.  The modules below hold the device registry, the encrypted
//! secret ledger that drives the seed/join synchronization protocol, and the
//! per-identity note collections, together with the invariants that link
//! device lifecycle to note-store access.

pub mod assoc;
pub mod identity;
pub mod strmap;
pub mod devices;
pub mod devices_store;
pub mod notes;
pub mod notes_store;
