//! Server-side wallet state for a shielded value pool.
//!
//! The crate tracks which notes belong to a set of incoming viewing keys, keeps
//! an append-only note commitment tree with bounded checkpoint history, hands
//! out authentication paths for owned notes and selects notes to cover a spend.

pub mod accumulator;
pub mod error;
pub mod field;
pub mod keys;
pub mod merkle;
pub mod notes;
pub mod scan;
pub mod selection;
pub mod wallet;

pub use accumulator::CommitmentTree;
pub use error::{OrchardError, WalletError};
pub use keys::{
    orchard_derive_ivk_from_fvk, orchard_generate_random_spending_key,
    orchard_test_generate_spending_key, spending_key_from_seed,
};
pub use merkle::{orchard_test_get_empty_anchor, root_from_path};
pub use notes::{DecryptedNote, NoteId, NotePayload, NoteRegistry};
pub use scan::{try_decrypt_note, ShieldedAction};
pub use wallet::OrchardWalletState;
