//! A filesystem in a single image of fixed-size blocks.
//!
//! The image holds a superblock, a journal block, two bitmaps, an inode table and data blocks.
//! Everything that decides what an operation does to the image is in this crate and verified;
//! the image file itself is opened, read and written by the program around it.

pub mod bitmap;
pub mod bytes;
pub mod change_laws;
pub mod contents;
pub mod crash_laws;
pub mod directory;
pub mod dirent;
pub mod disk;
pub mod entries;
pub mod error;
pub mod file;
pub mod file_laws;
pub mod format_laws;
pub mod fresh;
pub mod fs;
pub mod history_laws;
pub mod image_laws;
pub mod inode;
pub mod journal;
pub mod journal_laws;
pub mod layout;
pub mod mount_laws;
pub mod node;
pub mod node_laws;
pub mod order_laws;
pub mod path;
pub mod path_laws;
pub mod reading_laws;
pub mod refusal_laws;
pub mod sound;
pub mod steps;
pub mod superblock;
pub mod text;
pub mod tree;
pub mod tree_laws;
pub mod walks;

