//! Cross-section ingestion and geometric frames for geological exploration data.
//!
//! A cross-section file is read into polylines ([`Cross`]), which can be ordered
//! along an axis, cleared of duplicates, filtered by group number or depth, bounded
//! by frames, and projected onto the horizontal plane for drawing or a convex hull.
//! The rows of the drill-hole datasets (collars, lithology, assays, surveys and
//! composites) are read by [`records`].
//!
//! Coordinates are held as fixed-point integers: one unit is a thousandth of the
//! unit written in the source files (see [`COORD_SCALE`]).
pub mod collection;
pub mod geometry;
pub mod hull;
pub mod parser;
pub mod paths;
pub mod records;
pub mod text;

pub use collection::{dedup, sort_by_axis, CrossObject};
pub use geometry::{Axis, Cross, CrossCoordinate2d, CrossCoordinate3d, Extent, COORD_SCALE};
pub use hull::{HullError, HULL_COORD_LIMIT};
pub use parser::{read_cross_lines, CrossInformation, CrossReadError};
pub use paths::{
    CSVPath, CompositeInformation, DrillInformation, LythologyInformation, RawSampleInformation,
    STRPath, SlopeInformation,
};
pub use records::{
    Composite, CompositeObject, Drill, DrillObject, Lythology, LythologyObject, RawSample,
    RawSampleObject, RecordError, Slope, SlopeObject,
};
pub use text::parse_fixed;
