//! Restore side of a deduplicating, content-addressed backup store.
//!
//! The library holds the parts of a restore that decide things: how a
//! stored path becomes a safe relative path, how a file entry is modelled,
//! how the chunks of a file are grouped so that every object is fetched
//! once, and how decoded chunks are placed into the file image.

mod entry;
mod path;
mod restore;
mod select;
mod text;

pub use entry::{ChunkPointer, CreateAction, Entry, EntryError, FileMetadata, FileType, MetadataPlan, PreserveMetadata};
pub use path::{destination, get_path, normalize_filename, Destination};
pub use restore::{
    assemble, chunk_offsets, group_by_object, place_at_position, place_chunk, plan_work, span_end,
    FileImage, InFlight, ObjectGroup, RestoreError, WorkPlan,
};
pub use select::{any_match, name_matches, select_by_glob};
