//! Text documents that several people edit at once: a log of what each of them did, the
//! document at every version of it, and what peers tell each other.

pub mod admission;
pub mod agent_assignment;
pub mod braid;
pub mod branch;
pub mod causal_graph;
pub mod chunks;
pub mod convergence;
pub mod copying;
pub mod decimal;
pub mod decoding;
pub mod doc;
pub mod doc_laws;
pub mod encoding;
pub mod encoding_laws;
pub mod events;
pub mod extension;
pub mod frontier;
pub mod full_range;
pub mod graph;
pub mod history;
pub mod history_laws;
pub mod lengths;
pub mod list_crdt;
pub mod listing_laws;
pub mod merge;
pub mod names;
pub mod observed_history;
pub mod operation;
pub mod oplog;
pub mod order;
pub mod patch_laws;
pub mod patches;
pub mod plain_laws;
pub mod plan;
pub mod plan_laws;
pub mod range;
pub mod rebuild;
pub mod record_laws;
pub mod relative_to_absolute;
pub mod remote_ids;
pub mod remote_ops;
pub mod rle;
pub mod segments;
pub mod sending;
pub mod smart_string;
pub mod sorting;
pub mod splice;
pub mod stored_laws;
pub mod text;
pub mod text_buffer;
pub mod text_laws;
pub mod ties;
pub mod tracker;
pub mod travel;
pub mod treap_store;
pub mod update_laws;
pub mod update_texts;
pub mod vec_store;
pub mod wire;
pub mod wire_laws;
pub mod xf_absolute;
pub mod xf_runs;
