//! MacAtrium host build tooling — the verified library: classic-Mac binary
//! formats (resource forks, BinHex, PICT, `snd `, MacBinary `SIZE` patching,
//! MacRoman) and the catalog, harvest, matching and build-selection logic.

pub mod binhex;
pub mod bytes;
pub mod catalog;
pub mod collections;
pub mod config;
pub mod donors;
pub mod fill;
pub mod enrich;
pub mod fetch;
pub mod harvest;
pub mod icons;
pub mod image;
pub mod import;
pub mod json;
pub mod keyed;
pub mod library;
pub mod macroman;
pub mod mg;
pub mod merge;
pub mod mgdb;
pub mod paged;
pub mod pict;
pub mod preflight;
pub mod rbcli;
pub mod readback;
pub mod resfork;
pub mod size_rsrc;
pub mod selection;
pub mod settings;
pub mod snd;
pub mod targets;
pub mod templates;
pub mod text;
pub mod variants;
