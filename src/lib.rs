//! Decoders for a game's asset archives and encrypted save files, and the
//! item lookup that searches decoded inventories.
//!
//! - `byte_reader`, `byte_vec`: bounds-checked cursors over bytes.
//! - `decrypt`, `fields`: the save files' rolling cipher, its block framing,
//!   and fixed layouts of cipher-decoded fields.
//! - `arc_parser`: the localization archive and its item manifest.
//! - `arz_parser`: the game database and its typed record fields.
//! - `inventory_item`, `stash_entry`, `stash`, `player`: the save formats.
//! - `str_map`, `item_search`: merged lookup maps and the item search.
//! - `config`: the settings that say where the game and its saves are.

pub mod error;
pub mod text;
pub mod compression;
pub mod byte_reader;
pub mod byte_vec;
pub mod decrypt;
pub mod fields;
pub mod str_map;
pub mod arc_parser;
pub mod arz_parser;
pub mod inventory_item;
pub mod stash_entry;
pub mod stash;
pub mod player;
pub mod item_search;
pub mod config;
