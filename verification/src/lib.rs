//! Delta-based file synchronisation.
//!
//! A sync makes a destination equal to a source while moving only what the
//! destination does not hold yet. The destination is described by block
//! signatures, a weak rolling checksum and a SHA-256 digest for each block
//! ([`sync`], [`checksum`]). A scanner slides a window over the source and
//! turns it into a plan: a copy for every window that matches a block of the
//! destination, literal data for everything else ([`delta`], [`index`]). A
//! reassembler carries the plan out on the old destination
//! ([`instruction`]).
//!
//! [`local_sync`] applies this to files and directory trees held in memory.
//! [`network_sync`] splits it between a client, which scans, and a server,
//! which announces its signatures and reassembles; [`protocol`], [`stream`]
//! and [`server`] define what goes over the wire between them, and [`wire`]
//! the text that the lines are made of.
//!
//! Everything here works on values in memory. Reading and writing files and
//! sockets is left to the caller, and [`mode`] tells it from the arguments
//! of a run which of the drivers to use.
//!
//! What is proved of the engine, besides the contract of each function:
//!
//! - the rolling update of the weak checksum gives the checksum of the next
//!   window ([`checksum::lemma_rolling_update`]);
//! - the tallies of a plan add up to the length of the source
//!   ([`delta::lemma_plan_accounts_for_source`]);
//! - a plan can always be carried out on the reference it was scanned
//!   against, and rebuilds the source unless two different byte ranges share
//!   both checksums ([`delta::lemma_plan_rebuilds_source`]);
//! - an identical reference is reused block by block
//!   ([`delta::lemma_plan_of_identical`]), and without a reference nothing
//!   is reused ([`delta::lemma_plan_without_reference`]);
//! - a second sync changes nothing ([`local_sync::lemma_sync_idempotent`]);
//! - what the client sends over the wire is what the server rebuilds
//!   ([`network_sync::lemma_round_trip`]).

pub mod checksum;
pub mod delta;
pub mod index;
pub mod instruction;
pub mod local_sync;
pub mod mode;
pub mod network_sync;
pub mod protocol;
pub mod server;
pub mod stream;
pub mod sync;
pub mod tree;
pub mod wire;
