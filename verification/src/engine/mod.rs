//! The storage engine: key encoding, table blocks, memtable, versions,
//! compaction and the read and write paths over them.

pub mod age_laws;
pub mod batch;
pub mod block;
pub mod block_cache;
pub mod block_cursor;
pub mod block_entry;
pub mod bloom;
pub mod chain_laws;
pub mod checksum;
pub mod commit;
pub mod compaction;
pub mod compaction_laws;
pub mod compaction_merge;
pub mod compaction_output;
pub mod compaction_pick;
pub mod copy_laws;
pub mod db_lock;
pub mod engine_laws;
pub mod filter_block;
pub mod filter_laws;
pub mod gc_laws;
pub mod hooks;
pub mod index_block;
pub mod ingest;
pub mod ingest_laws;
pub mod internal_key;
pub mod iterator;
pub mod lark_engine;
pub mod level_iter;
pub mod level_laws;
pub mod lookup;
pub mod lookup_key;
pub mod lru_list;
pub mod manifest;
pub mod manifest_record;
pub mod memtable;
pub mod merge_laws;
pub mod merging_iter;
pub mod multi_get;
pub mod mvcc;
pub mod options;
pub mod order_laws;
pub mod pick_laws;
pub mod push_laws;
pub mod range_tombstone;
pub mod read_horizon;
pub mod read_view;
pub mod recovery;
pub mod recovery_laws;
pub mod scan;
pub mod scan_laws;
pub mod seek_laws;
pub mod skip_table;
pub mod sstable;
pub mod table_build;
pub mod varint;
pub mod versions;
pub mod view_iter;
pub mod walk_laws;
