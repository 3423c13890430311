//! hexis — managed-mutable config reconciliation with per-key modes.
//!
//! Three states of a config file are reconciled: the declared overlay
//! (what the platform wants), the snapshot (what hexis last wrote) and the
//! live file (what the user has now). Each declared key carries a mode —
//! `once`, `ensure` or `always` — that decides its lifecycle, and user
//! drift is captured as RFC 7396 JSON Merge Patches.

pub mod error;
pub mod json;
pub mod pointer;
pub mod pointer_map;
pub mod syntax;
pub mod text_order;
pub mod types;

pub mod declared;
pub mod drift;
pub mod live;
pub mod plan;
pub mod snapshot;

pub mod proposer;
pub mod reconciler;
pub mod supervisor;

pub use error::Error;
pub use pointer::JsonPointer;
pub use types::{FileId, Mode};
