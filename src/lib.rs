//! Two on-ledger registries modelled as plain state machines: a mapping
//! registry from identifiers to content hashes, and an ownership registry
//! that tracks holders, a per-holder reverse index and mapping keys.
//!
//! Principals and identifiers are strings. The host's proof that a caller
//! controls the principal it names comes in as a `bool`, and each successful
//! mutation returns the event it publishes.

mod error;
mod ipcm;
mod nft;

pub use error::RegistryError;
pub use ipcm::{
    applies_update, lemma_history_reconstructs, lemma_reread_is_stable, owner_check, IpcmState,
    MappingUpdated, MappingUpdatedView, OctopusIPCMContract, OwnershipTransferred,
};
pub use nft::{
    admin_check, held_in, holder_check, ids_view, lemma_burn_keeps_consistent,
    lemma_existence_consistent, lemma_mint_keeps_consistent, lemma_reverse_index_exact,
    lemma_transfer_keeps_consistent, lemma_without_contains, lemma_without_no_dup, opt_view,
    without, Burned, Minted, NftState, OctopusNFTContract, Transferred,
};
