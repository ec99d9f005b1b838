pub mod checksum;
pub mod commit;
pub mod commit_exact;
pub mod commit_law;
pub mod cursor;
pub mod database;
pub mod durable_law;
pub mod error;
pub mod first_commit;
pub mod format;
pub mod free_list;
pub mod key;
pub mod laws;
pub mod leaf_commit;
pub mod live_law;
pub mod merge;
pub mod merge_back;
pub mod merge_law;
pub mod node;
pub mod node_codec;
pub mod node_laws;
pub mod once_law;
pub mod ordered;
pub mod path;
pub mod rank;
pub mod rank_merge;
pub mod rank_split;
pub mod rank_update;
pub mod rank_write;
pub mod reader;
pub mod ready_law;
pub mod seek_law;
pub mod spine;
pub mod split;
pub mod split_back;
pub mod split_law;
pub mod staging;
pub mod store;
pub mod tree;
pub mod tree_update;
pub mod tx;
pub mod tx_law;
pub mod update;
pub mod walk_law;
pub mod update_keeps;
pub mod update_law;
pub mod write_law;
pub mod write_model;
