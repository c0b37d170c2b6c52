//! Where each dataset lives and how its file is laid out, as read from the settings.
use vstd::prelude::*;
use std::collections::HashMap;

verus! {

/// Paths of the comma-separated datasets.
#[derive(Debug)]
pub struct CSVPath {
    slope_csv_path: String,
    lythology_csv_path: String,
    rawsample_csv_path: String,
    drill_csv_path: String,
}

impl CSVPath {
    pub closed spec fn slope(&self) -> Seq<char> {
        self.slope_csv_path@
    }

    pub closed spec fn lythology(&self) -> Seq<char> {
        self.lythology_csv_path@
    }

    pub closed spec fn rawsample(&self) -> Seq<char> {
        self.rawsample_csv_path@
    }

    pub closed spec fn drill(&self) -> Seq<char> {
        self.drill_csv_path@
    }

    pub fn new(
        drill_csv_path: String,
        lythology_csv_path: String,
        slope_csv_path: String,
        rawsample_csv_path: String,
    ) -> (r: CSVPath)
        ensures
            r.drill() == drill_csv_path@,
            r.lythology() == lythology_csv_path@,
            r.slope() == slope_csv_path@,
            r.rawsample() == rawsample_csv_path@,
    {
        CSVPath { slope_csv_path, lythology_csv_path, rawsample_csv_path, drill_csv_path }
    }

    pub fn clone_slope_csv_path(&self) -> (r: String)
        ensures
            r@ == self.slope(),
    {
        self.slope_csv_path.clone()
    }

    pub fn clone_lythology_csv_path(&self) -> (r: String)
        ensures
            r@ == self.lythology(),
    {
        self.lythology_csv_path.clone()
    }

    pub fn clone_rawsample_csv_path(&self) -> (r: String)
        ensures
            r@ == self.rawsample(),
    {
        self.rawsample_csv_path.clone()
    }

    pub fn clone_drill_csv_wpath(&self) -> (r: String)
        ensures
            r@ == self.drill(),
    {
        self.drill_csv_path.clone()
    }
}

/// Paths of the segment-delimited datasets.
#[derive(Debug)]
pub struct STRPath {
    cross_section_path: String,
    composite_path: String,
}

impl STRPath {
    pub closed spec fn cross_section(&self) -> Seq<char> {
        self.cross_section_path@
    }

    pub closed spec fn composite(&self) -> Seq<char> {
        self.composite_path@
    }

    pub fn new(cross_section_path: String, composite_path: String) -> (r: STRPath)
        ensures
            r.cross_section() == cross_section_path@,
            r.composite() == composite_path@,
    {
        STRPath { cross_section_path, composite_path }
    }

    pub fn clone_cross_section_path(&self) -> (r: String)
        ensures
            r@ == self.cross_section(),
    {
        self.cross_section_path.clone()
    }

    pub fn clone_composite_path(&self) -> (r: String)
        ensures
            r@ == self.composite(),
    {
        self.composite_path.clone()
    }
}

/// Where and how the drill-hole collar file is read.
#[derive(Debug)]
pub struct DrillInformation {
    pub path: String,
    pub mining_type: String,
    pub seperator: char,
    /// Logical field name to source column name.
    pub columns: HashMap<String, String>,
}

impl DrillInformation {
    pub fn new(path: String, mining_type: String, seperator: char, columns: HashMap<String, String>) -> (r:
        DrillInformation)
        ensures
            r.path == path,
            r.mining_type == mining_type,
            r.seperator == seperator,
            r.columns == columns,
    {
        DrillInformation { path, mining_type, seperator, columns }
    }
}

/// Where and how the lithology interval file is read.
#[derive(Debug)]
pub struct LythologyInformation {
    pub path: String,
    pub mining_type: String,
    pub seperator: char,
    /// Logical field name to source column name.
    pub columns: HashMap<String, String>,
}

impl LythologyInformation {
    pub fn new(path: String, mining_type: String, seperator: char, columns: HashMap<String, String>) -> (r:
        LythologyInformation)
        ensures
            r.path == path,
            r.mining_type == mining_type,
            r.seperator == seperator,
            r.columns == columns,
    {
        LythologyInformation { path, mining_type, seperator, columns }
    }
}

/// Where and how the raw sample assay file is read.
#[derive(Debug)]
pub struct RawSampleInformation {
    pub path: String,
    pub mining_type: String,
    pub seperator: char,
    /// Logical field name to source column name.
    pub columns: HashMap<String, String>,
}

impl RawSampleInformation {
    pub fn new(path: String, mining_type: String, seperator: char, columns: HashMap<String, String>) -> (r:
        RawSampleInformation)
        ensures
            r.path == path,
            r.mining_type == mining_type,
            r.seperator == seperator,
            r.columns == columns,
    {
        RawSampleInformation { path, mining_type, seperator, columns }
    }
}

/// Where and how the dip/azimuth survey file is read.
#[derive(Debug)]
pub struct SlopeInformation {
    pub path: String,
    pub mining_type: String,
    pub seperator: char,
    /// Logical field name to source column name.
    pub columns: HashMap<String, String>,
}

impl SlopeInformation {
    pub fn new(path: String, mining_type: String, seperator: char, columns: HashMap<String, String>) -> (r:
        SlopeInformation)
        ensures
            r.path == path,
            r.mining_type == mining_type,
            r.seperator == seperator,
            r.columns == columns,
    {
        SlopeInformation { path, mining_type, seperator, columns }
    }
}

/// Where and how the composite interval file is read.
#[derive(Debug)]
pub struct CompositeInformation {
    pub path: String,
    pub mining_type: String,
    pub seperator: char,
}

impl CompositeInformation {
    pub fn new(path: String, mining_type: String, seperator: char) -> (r: CompositeInformation)
        ensures
            r.path == path,
            r.mining_type == mining_type,
            r.seperator == seperator,
    {
        CompositeInformation { path, mining_type, seperator }
    }
}

} // verus!
