//! Resizes the textures of texture dictionaries, and merges packs of numbered
//! assets into one.
//!
//! * [`bytes`], [`text`], [`text_laws`], [`scale`], [`names`], [`names_laws`] and
//!   [`sizes`] hold what the rest is built on: numbers in byte sequences, characters
//!   and lines, double precision scaling in integers, paths, and sizes as they are
//!   shown.
//! * [`resource`], [`texture_format`], [`ytd_io`], [`ytd_laws`] and [`ytd_fields`] read
//!   and write texture dictionaries.
//! * [`pixels`], [`codec`], [`codec_laws`], [`pipeline`] and [`pipeline_laws`] decode,
//!   resize and encode textures.
//! * [`settings`], [`settings_laws`], [`progress`], [`batch`] and [`file_laws`] work
//!   through a list of files.
//! * [`assets`], [`ids`], [`squisher`], [`merge`], [`merge_laws`], [`merge_steps`],
//!   [`placing`] and [`placing_laws`] merge packs, and [`manifest`], [`manifest_laws`]
//!   and [`manifest_lines`] their manifests.
//! * [`resizer_state`], [`squisher_state`] and [`window_laws`] are what the window
//!   shows.

// The object files of the block encoders need the runtime of C++.
use link_cplusplus as _;

pub mod assets;
pub mod batch;
pub mod bytes;
pub mod codec;
pub mod codec_laws;
pub mod file_laws;
pub mod ids;
pub mod manifest;
pub mod manifest_laws;
pub mod manifest_lines;
pub mod merge;
pub mod merge_laws;
pub mod merge_steps;
pub mod names;
pub mod names_laws;
pub mod pipeline;
pub mod pipeline_laws;
pub mod pixels;
pub mod placing;
pub mod placing_laws;
pub mod progress;
pub mod resizer_state;
pub mod resource;
pub mod scale;
pub mod settings;
pub mod settings_laws;
pub mod sizes;
pub mod squisher;
pub mod squisher_state;
pub mod text;
pub mod text_laws;
pub mod texture_format;
pub mod window_laws;
pub mod ytd_fields;
pub mod ytd_io;
pub mod ytd_laws;
