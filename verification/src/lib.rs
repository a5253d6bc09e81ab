//! Causal-history kernel: content-addressed events, a causal DAG, normal-form
//! reduction and the merge primitive `merge(A, B) = nf(A ∪ B)`.
//!
//! ```text
//! State = σ(nf(History))
//! ```
//!
//! | Module        | Purpose                                              |
//! |---------------|------------------------------------------------------|
//! | `ids`         | identifiers and sorted identifier sets               |
//! | `digest`      | SHA-256 and hex encoding                             |
//! | `json`        | JSON values carried by events                        |
//! | `event`       | immutable content-addressed events                   |
//! | `idmap`       | maps keyed by identifiers                            |
//! | `dag`         | the causal DAG                                       |
//! | `cone`        | Merkle cone hashing                                  |
//! | `nf`          | normal-form reduction                                |
//! | `kernel`      | the runtime object and semantic functors             |
//! | `merge`       | the merge primitive and simulated nodes              |
//! | `persistence` | event stores, snapshots, logging kernel              |
//! | `network`     | the anti-entropy protocol as state machines          |

pub mod ids;
pub mod digest;
pub mod json;
pub mod event;
pub mod idmap;
pub mod dag;
pub mod cone;
pub mod nf;
pub mod kernel;
pub mod merge;
pub mod persistence;
pub mod network;

pub use event::{Event, EventId, Payload};
pub use dag::CausalDag;
pub use cone::ConeHasher;
pub use nf::NormalForm;
pub use kernel::JcKernel;
pub use merge::merge_histories;
pub use persistence::{EventStore, MemoryStore, Snapshot, SerializableEvent, IncrementalKernel, FileStore};
pub use network::{NetworkNode, Message, SyncStats};
