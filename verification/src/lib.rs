//! The decisions behind a directory lister, a copier and a remover that can use
//! a vectorized backend for paths on NFS mounts.
//!
//! Nothing here touches a file. What the system tells is handed in as plain
//! values, and what is to be done is handed out: as a result, or, where work
//! and decisions alternate, as the next step of a machine.
//!
//! Paths are byte strings (`path`), ordered as the standard library orders them
//! (`order`). Listings are made of entries (`entry`) with metadata from either
//! source (`meta`, `attrs`), sorted by keys (`sort`, `rank`, `entry_order`),
//! collected and led through a tree (`listing`, `traverse`, `walk`), and written
//! as text (`output`). `mount` tells which mount a path lies on, `open` what is
//! asked of the backend there. Copies are prepared in batches (`batch`,
//! `server_copy`) and carried out one by one (`copy`, `copy_file`); `remove`
//! names what is removed.
//!
//! Each contract names what a function computes. The modules whose names end in
//! `_laws` state what that comes to: in bytes, fields and steps, and in how one
//! call relates to another.
pub mod attrs;
pub mod backend_laws;
pub mod batch;
pub mod config;
pub mod copy;
pub mod copy_file;
pub mod copy_laws;
pub mod entry;
pub mod entry_laws;
pub mod entry_order;
pub mod error;
pub mod listing;
pub mod listing_laws;
pub mod meta;
pub mod mount;
pub mod mount_laws;
pub mod open;
pub mod order;
pub mod order_laws;
pub mod output;
pub mod path;
pub mod path_laws;
pub mod pathmap;
pub mod rank;
pub mod remove;
pub mod security;
pub mod server_copy;
pub mod sort;
pub mod text;
pub mod traverse;
pub mod traverse_laws;
pub mod walk;
