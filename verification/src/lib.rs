//! A verified index for Merklized adaptive-radix forests.
//!
//! The crate holds the data structures, codecs, caches and decision procedures of the index.
//! Every public function states its result over mathematical views, and every panic-free claim is
//! proved.  Input and output live in the surrounding application.
pub mod ancestry;
pub mod audit;
pub mod bitmap;
pub mod bits;
pub mod blob_layout;
pub mod branch_view;
pub mod cache;
pub mod cache_laws;
pub mod commitment_laws;
pub mod counters;
pub mod cow;
pub mod cow_laws;
pub mod cursor;
pub mod decode_laws;
pub mod direct_hash_index;
pub mod error;
pub mod file_laws;
pub mod fork_storage;
pub mod hash;
pub mod hash_publication;
pub mod hash_session;
pub mod height_laws;
pub mod hex;
pub mod index_laws;
pub mod inline_value;
pub mod key_index;
pub mod layout_laws;
pub mod leaf;
pub mod leaf_laws;
pub mod leaf_walk;
pub mod locality_laws;
pub mod mapped_laws;
pub mod mapped_node;
pub mod mapping;
pub mod marf;
pub mod marf_extend;
pub mod marf_heights;
pub mod marf_read;
pub mod merkle_proof;
pub mod node;
pub mod node_codec;
pub mod node_laws;
pub mod node_reads;
pub mod packed_branch;
pub mod packed_laws;
pub mod patch;
pub mod path;
pub mod proof_build;
pub mod proof_codec;
pub mod proof_laws;
pub mod provable_laws;
pub mod raw_leaf;
pub mod read_laws;
pub mod read_node;
pub mod read_storage;
pub mod record;
pub mod record_context;
pub mod record_laws;
pub mod result_cache;
pub mod scratch;
pub mod slots;
pub mod soundness_laws;
pub mod trie_file;
pub mod value;
pub mod walk_laws;
pub mod wire_laws;
pub mod words;
pub mod write_laws;
