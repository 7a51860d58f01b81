//! An open-addressing hash table with linear probing and automatic growth.

mod hashable;
mod laws;
mod table;

pub use hashable::{djb2, lemma_digest_determinism, Hashable, DJB2_SEED};
pub use laws::{
    insert_run, lemma_absent_never_inserted, lemma_get_mut_increment,
    lemma_growth_preserves_mapping, lemma_retrieval_complete, lemma_upsert,
};
pub use table::{HashTable, DEFAULT_CAPACITY};
