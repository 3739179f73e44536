//! An engine for reading and changing the on-disk structures of a FAT12
//! volume held in memory as one flat byte buffer.
//!
//! The geometry of the volume is fixed at compile time. Every operation works
//! on the same buffer and never changes its length.

pub mod bios_parameter_block;
pub mod bootsector;
pub mod buffer;
pub mod chain_store;
pub mod cluster_chain;
pub mod dir_entry;
pub mod directories;
pub mod directory_changes;
pub mod entry_region;
pub mod error;
pub mod fat_section_util;
pub mod free_clusters;
pub mod guarantees;
pub mod new_file;
pub mod read_file;
pub mod root_dir_util;
pub mod shell_images;
pub mod shell_parsing;
pub mod shell_state;
