//! Compares INI-style configuration files: reads each into a map from
//! section and property to value, and reports the keys that two files both
//! assign, with different values.

pub mod config;
pub mod diff;
pub mod ignore;
pub mod interner;
pub mod line;
pub mod pairing;
pub mod reader;
pub mod report;
pub mod table;
pub mod text;

pub use crate::config::{ConfigMap, Key};
pub use crate::diff::{diff, diff_maps, Difference};
pub use crate::ignore::Ignored;
pub use crate::interner::Interner;
pub use crate::line::{parse_line, Line};
pub use crate::pairing::{is_config_extension, pair_names};
pub use crate::reader::read_to_map;
pub use crate::report::report;
pub use crate::text::is_whitespace;
