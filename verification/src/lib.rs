//! Reads a btrfs filesystem from the bytes of its devices, read-only and without a mount.
//!
//! Nothing here touches a device, a file or the host. An operation that needs something from
//! outside says what it needs and is started again, or stepped on, once that is there.

pub mod calendar_laws;
pub mod checksum;
pub mod chunks;
pub mod copy;
pub mod copy_laws;
pub mod cut_laws;
pub mod decompress;
pub mod dev;
pub mod device_laws;
pub mod dir_laws;
pub mod disk;
pub mod entry_laws;
pub mod error;
pub mod find;
pub mod find_laws;
pub mod format_laws;
pub mod fs;
pub mod glob;
pub mod host;
pub mod list_laws;
pub mod lookup;
pub mod map_laws;
pub mod message_laws;
pub mod model;
pub mod name_laws;
pub mod names;
pub mod number_laws;
pub mod object_laws;
pub mod open;
pub mod path;
pub mod path_laws;
pub mod range;
pub mod range_laws;
pub mod read_laws;
pub mod read_ends;
pub mod refusal_laws;
pub mod report;
pub mod resolve_laws;
pub mod scan;
pub mod show_laws;
pub mod sort;
pub mod sound;
pub mod subvol;
pub mod subvol_laws;
pub mod text;
pub mod time;
pub mod tree;
pub mod unpack_laws;
