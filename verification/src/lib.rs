//! Histogram-difference scores for plates of wells.
//!
//! A plate is a table of cell measurements: each row belongs to a well and
//! holds one value for each feature. A first pass finds the range of every
//! feature over the whole plate (`ranges`); a second pass counts, for each well
//! and feature, how many values fall into each bin of that range
//! (`accumulate`); and each well is then scored, feature by feature, against
//! the summed histograms of the control wells of its group (`calc`, `score`).
//!
//! Counts are whole numbers, and everything that follows from them is kept as
//! an exact fraction: a smoothed or normalized histogram is a row of numerators
//! over one denominator (`profile`), and a score is a fraction with a sign.
//! A measured value enters the library by the bit pattern of its
//! double-precision number, from which the library takes an integer key that
//! is ordered as the values are (`keys`). No arithmetic is done on measured
//! values here: a caller says of each value how many bin widths above the low
//! end of its range it lies.
//!
//! The other modules serve these: `wells` and `groups` name wells and form the
//! groups that are scored on their own, `columns` finds names among headers,
//! `table` and `report` hold the scores and lay them out for writing,
//! `platemap` reads which wells are controls, `formatter` cleans the columns
//! of a raw table, `text` reads and writes decimal numerals, and `shared`
//! holds the two maps that the passes fill.

pub mod accumulate;
pub mod calc;
pub mod columns;
pub mod formatter;
pub mod groups;
pub mod histograms;
pub mod keys;
pub mod platemap;
pub mod profile;
pub mod ranges;
pub mod report;
pub mod score;
pub mod shared;
pub mod table;
pub mod text;
pub mod wells;

pub use accumulate::{Accumulator, CalcError, Row};
pub use calc::calculate_scores;
pub use formatter::{clean_col_name, find_common_features};
pub use histograms::{Hist1D, MinMax, Reading};
pub use platemap::{designate, Designation};
pub use profile::{exponential_smoothing, normalize, Profile, Ratio};
pub use ranges::{
    get_min_max_plate, scan_plate, MinMaxPlateResult, PlateScan, RangeScanner, ScanError,
};
pub use report::{feature_columns, problem_lines, record_of};
pub use score::{hist_square_diff, Score, ShapeError};
pub use table::{ResultTable, ScoreRow};
pub use wells::{build_id, clean_well_names, plate_definition, rename_index};
