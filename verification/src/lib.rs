//! Layers of geocoded tabular data.
//!
//! A layer is read from the text of a semicolon-separated file: the first
//! two fields of each line are a coordinate, the others are attributes
//! under the titles of the header line. [`table`] reads such a text into a
//! table and infers which columns are numeric, [`store`] keeps the tables
//! of the layers under their identifiers, [`ingest`] takes a file in as a
//! new layer, and [`query`] serves the attributes of a layer, sorted by a
//! column, and the fields of one feature. [`text`], [`number`] and
//! [`order`] hold what these rest on: lines and fields, the two kinds of
//! number, and the stable order of rows; [`mirror`] relates the two
//! directions of a sort.
//!
//! Coordinates are kept as they are written. The library decides whether a
//! field is a decimal floating-point literal and leaves its value, and the
//! bounding box of a layer, to its callers.

pub mod error;
pub mod ingest;
pub mod mirror;
pub mod number;
pub mod order;
pub mod query;
pub mod store;
pub mod table;
pub mod text;
