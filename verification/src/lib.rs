//! The discrete core of a terrain-puzzle generator.
//!
//! - `classes`, `settings`: surface classes and the enumerated settings.
//! - `generation`, `validation`: the settings read as plain values, the
//!   dense filament palette, sample budgets and the setting checks.
//! - `grid`, `surface`: raster land-cover fields, small-patch filtering,
//!   the tile-edge ring and the steep-slope gates.
//! - `cache`: FNV fingerprints and the bounded prepared-geometry store.
//! - `buckets`: the spatial index of vector lines and areas.
//! - `text`, `paths`: numerals, folder and file names, job folders.
//! - `emboss`, `timing`: label glyph checks and build timing totals.

pub mod classes;
pub mod settings;
pub mod grid;
pub mod surface;
pub mod cache;
pub mod text;
pub mod paths;
pub mod generation;
pub mod validation;
pub mod timing;
pub mod emboss;
pub mod buckets;
