//! Disk-maintenance logic: size listings, date-based organisation, media
//! dumping with collision-safe names, and content-hash deduplication.
//!
//! Every function here works on plain values; reading directories, moving,
//! copying and deleting files is left to the caller, which hands the library
//! what it saw and carries out what the library decides.
pub mod dedupe;
pub mod listing;
pub mod media;
pub mod naming;
pub mod organize;
pub mod prune;
pub mod text;

pub use dedupe::{content_hash, duplicate_plan, size_groups, Registry};
pub use listing::{listing_total, size_labels, size_order, total_label, Entry};
pub use media::{is_media_extension_text, is_media_file, same_text};
pub use naming::{candidate_path, candidate_with_hash, MAX_PATH_CHARS};
pub use organize::{date_dir, date_partition, place_entry, year_dir_name, DatePartition, Placement};
pub use prune::{prune_plan, Node};
pub use text::{find_last_dot, join_path, padded_decimal, push_decimal, split_name};
