//! A hex explorer's core: finding the printable strings of a file, region by
//! region, and browsing them and the bytes around them.
//!
//! `runs`, `extract` and `region` take the strings of one region out of the bytes
//! that are read; `scanner`, `listing`, `merge` and `whole` say what the regions of a
//! file give together. `tui`, `events`, `keys` and `arrivals` are the state of the
//! viewer and what changes it; `session`, `layout`, `screen`, `table`, `raw_hex` and
//! `hex_view` say what it starts with and what it shows. `cli`, `result` and `report`
//! read settings and write results; `bounds`, `text`, `number`, `dump`, `json` and
//! `sort` serve the others.
pub mod arrivals;
pub mod bounds;
pub mod cli;
pub mod dump;
pub mod events;
pub mod extract;
pub mod hex_view;
pub mod json;
pub mod json_tree;
pub mod keys;
pub mod layout;
pub mod listing;
pub mod merge;
pub mod number;
pub mod raw_hex;
pub mod region;
pub mod report;
pub mod result;
pub mod runs;
pub mod scanner;
pub mod screen;
pub mod session;
pub mod sort;
pub mod stretches;
pub mod table;
pub mod text;
pub mod tui;
pub mod whole;
