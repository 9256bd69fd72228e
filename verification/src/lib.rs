//! Verified core of a sound-library deduplication tool: RIFF/WAVE container
//! handling, metadata chunks, fingerprint features, path conversion and the
//! duplicate-selection rules.

pub mod bytes;
pub mod codec;
pub mod aiff;
pub mod formats;
pub mod text;
pub mod paths;
pub mod riff;
pub mod fingerprint;
pub mod landmarks;
pub mod marks;
pub mod prefs;
pub mod records;
pub mod order;
pub mod dupes;
pub mod results;
pub mod license;
pub mod database;
pub mod rows;
pub mod queries;
pub mod files;
pub mod waves;
pub mod player;
pub mod similar;
pub mod subset;
