//! Rows of the drill-hole datasets: collars, lithology intervals, raw sample assays,
//! dip/azimuth surveys and composites.
//!
//! The comma-separated datasets hand over one record text per row, whose fields are
//! separated by `;`. Numeric fields are read as fixed-point thousandths (see
//! [`crate::text::decimal_value`]), surrounding whitespace ignored. The first record
//! handed over is a second header row and is skipped.
use vstd::prelude::*;
use vstd::utf8::encode_utf8;
use crate::paths::{CompositeInformation, DrillInformation, LythologyInformation, RawSampleInformation, SlopeInformation};
use crate::text::{decimal_value, int_value, lemma_split_on_len, parse_fixed, parse_i32, split_chars, split_on, trim, trim_chars, trim_text};

verus! {

/// Why a row could not be read.
#[derive(Debug, Clone, Copy, PartialEq, Eq, Structural)]
pub enum RecordError {
    /// Field `field` (counted from 0) of record `record` (its index in the list handed
    /// over) is missing or is not a number.
    Field { record: usize, field: usize },
}

/// The text of each field.
pub open spec fn field_texts(fields: Seq<String>) -> Seq<Seq<char>> {
    fields.map_values(|f: String| f@)
}

/// Field `k` read as a fixed-point number.
pub open spec fn number_at(fs: Seq<Seq<char>>, k: int) -> Option<i64> {
    if 0 <= k < fs.len() {
        decimal_value(trim(encode_utf8(fs[k])))
    } else {
        None
    }
}

/// The fields of a `;`-separated record.
pub open spec fn semicolon_fields(rec: Seq<char>) -> Seq<Seq<char>> {
    split_on(rec, ';')
}

/// Reads field `k` as a fixed-point number.
fn number_field(fields: &Vec<String>, k: usize) -> (r: Option<i64>)
    ensures
        r == number_at(field_texts(fields@), k as int),
{
    if k < fields.len() {
        assert(field_texts(fields@)[k as int] == fields@[k as int]@);
        parse_fixed(fields[k].as_str().as_bytes())
    } else {
        None
    }
}

/// Splits a record on `;`.
fn semicolon_split(record: &String) -> (r: Vec<String>)
    ensures
        field_texts(r@) == semicolon_fields(record@),
        r@.len() >= 1,
{
    let fields = split_chars(record.as_str(), ';');
    proof {
        lemma_split_on_len(record@, ';');
    }
    fields
}

/// Position of a drill-hole collar and the hole's depth, in thousandths.
#[derive(Debug, Clone, Copy, PartialEq, Eq, Structural)]
pub struct DrillCoordinate {
    pub x_coord: i64,
    pub y_coord: i64,
    pub z_coord: i64,
    pub depth: i64,
}

impl DrillCoordinate {
    pub fn new(x: i64, y: i64, z: i64, depth: i64) -> (r: DrillCoordinate)
        ensures
            r == (DrillCoordinate { x_coord: x, y_coord: y, z_coord: z, depth }),
    {
        DrillCoordinate { x_coord: x, y_coord: y, z_coord: z, depth }
    }
}

/// One drill hole.
#[derive(Debug)]
pub struct Drill {
    pub drill_no: String,
    pub coordinate: DrillCoordinate,
}

impl Drill {
    pub fn new(drill_no: String, coordinate: DrillCoordinate) -> (r: Drill)
        ensures
            r.drill_no == drill_no,
            r.coordinate == coordinate,
    {
        Drill { drill_no, coordinate }
    }
}

/// The collar that a record `drill_no;x;y;z;depth` spells, or its first bad field.
#[verifier::opaque]
pub open spec fn drill_spec(rec: Seq<char>) -> Result<(Seq<char>, DrillCoordinate), usize> {
    let fs = semicolon_fields(rec);
    if number_at(fs, 1) is None {
        Err(1)
    } else if number_at(fs, 2) is None {
        Err(2)
    } else if number_at(fs, 3) is None {
        Err(3)
    } else if number_at(fs, 4) is None {
        Err(4)
    } else {
        Ok(
            (
                fs[0],
                DrillCoordinate {
                    x_coord: number_at(fs, 1)->Some_0,
                    y_coord: number_at(fs, 2)->Some_0,
                    z_coord: number_at(fs, 3)->Some_0,
                    depth: number_at(fs, 4)->Some_0,
                },
            ),
        )
    }
}

/// Reads one collar record.
pub fn parse_drill(record: &String) -> (r: Result<Drill, usize>)
    ensures
        match r {
            Ok(d) => drill_spec(record@) == Ok::<(Seq<char>, DrillCoordinate), usize>(
                (d.drill_no@, d.coordinate),
            ),
            Err(f) => drill_spec(record@) == Err::<(Seq<char>, DrillCoordinate), usize>(f),
        },
{
    reveal(drill_spec);
    let fields = semicolon_split(record);
    let x = number_field(&fields, 1);
    let y = number_field(&fields, 2);
    let z = number_field(&fields, 3);
    let depth = number_field(&fields, 4);
    match (x, y, z, depth) {
        (Some(x), Some(y), Some(z), Some(depth)) => {
            assert(field_texts(fields@)[0] == fields@[0]@);
            let drill_no = fields[0].clone();
            Ok(Drill::new(drill_no, DrillCoordinate::new(x, y, z, depth)))
        },
        (None, _, _, _) => Err(1),
        (_, None, _, _) => Err(2),
        (_, _, None, _) => Err(3),
        (_, _, _, None) => Err(4),
    }
}

/// `rows` holds, in order, the collar of every record after the first.
pub open spec fn drill_rows(records: Seq<String>, rows: Seq<Drill>) -> bool {
    &&& rows.len() == if records.len() == 0 { 0 } else { records.len() - 1 }
    &&& forall|i: int|
        0 <= i < rows.len() ==> drill_spec(records[i + 1]@) == Ok::<(Seq<char>, DrillCoordinate), usize>(
            (#[trigger] rows[i].drill_no@, rows[i].coordinate),
        )
}

/// Record `e.record` is the first after the first that is not a collar, and fails at `e.field`.
pub open spec fn drill_failure(records: Seq<String>, e: RecordError) -> bool {
    match e {
        RecordError::Field { record, field } => {
            &&& 1 <= record < records.len()
            &&& drill_spec(records[record as int]@) == Err::<(Seq<char>, DrillCoordinate), usize>(field)
            &&& forall|j: int| 1 <= j < record ==> (#[trigger] drill_spec(records[j]@)) is Ok
        },
    }
}

impl DrillInformation {
    /// Reads the collar records of the drill file.
    pub fn read(&self, records: &Vec<String>) -> (r: Result<Vec<Drill>, RecordError>)
        ensures
            match r {
                Ok(v) => drill_rows(records@, v@),
                Err(e) => drill_failure(records@, e),
            },
    {
        let mut out: Vec<Drill> = Vec::new();
        if records.len() == 0 {
            return Ok(out);
        }
        let mut i: usize = 1;
        while i < records.len()
            invariant
                1 <= i <= records@.len(),
                out@.len() == i - 1,
                forall|k: int|
                    0 <= k < out@.len() ==> drill_spec(records@[k + 1]@) == Ok::<(Seq<char>, DrillCoordinate), usize>(
                        (#[trigger] out@[k].drill_no@, out@[k].coordinate),
                    ),
            decreases records@.len() - i,
        {
            match parse_drill(&records[i]) {
                Ok(d) => {
                    out.push(d);
                },
                Err(field) => {
                    assert forall|j: int| 1 <= j < i implies (#[trigger] drill_spec(records@[j]@)) is Ok by {
                        assert(drill_spec(records@[(j - 1) + 1]@) == Ok::<(Seq<char>, DrillCoordinate), usize>(
                            (out@[j - 1].drill_no@, out@[j - 1].coordinate),
                        ));
                    }
                    return Err(RecordError::Field { record: i, field });
                },
            }
            i = i + 1;
        }
        Ok(out)
    }
}

/// The collar file's rows.
#[derive(Debug)]
pub struct DrillObject {
    pub info: DrillInformation,
    pub data: Vec<Drill>,
}

impl DrillObject {
    pub fn new(info: DrillInformation, records: &Vec<String>) -> (r: Result<DrillObject, RecordError>)
        ensures
            match r {
                Ok(o) => drill_rows(records@, o.data@) && o.info == info,
                Err(e) => drill_failure(records@, e),
            },
    {
        match info.read(records) {
            Ok(data) => Ok(DrillObject { info, data }),
            Err(e) => Err(e),
        }
    }
}

/// A lithology interval along a hole, from and to in thousandths.
#[derive(Debug)]
pub struct LythologyCoordinate {
    pub start: i64,
    pub end: i64,
    pub lytho: String,
}

impl LythologyCoordinate {
    pub fn new(start: i64, end: i64, lytho: String) -> (r: LythologyCoordinate)
        ensures
            r.start == start,
            r.end == end,
            r.lytho == lytho,
    {
        LythologyCoordinate { start, end, lytho }
    }
}

/// One lithology row.
#[derive(Debug)]
pub struct Lythology {
    pub drill_no: String,
    pub coordinate: LythologyCoordinate,
}

impl Lythology {
    pub fn new(drill_no: String, coordinate: LythologyCoordinate) -> (r: Lythology)
        ensures
            r.drill_no == drill_no,
            r.coordinate == coordinate,
    {
        Lythology { drill_no, coordinate }
    }
}

/// The interval that a record `drill_no;from;to;lytho` spells, or its first bad field.
#[verifier::opaque]
pub open spec fn lythology_spec(rec: Seq<char>) -> Result<(Seq<char>, i64, i64, Seq<char>), usize> {
    let fs = semicolon_fields(rec);
    if number_at(fs, 1) is None {
        Err(1)
    } else if number_at(fs, 2) is None {
        Err(2)
    } else if fs.len() <= 3 {
        Err(3)
    } else {
        Ok((fs[0], number_at(fs, 1)->Some_0, number_at(fs, 2)->Some_0, fs[3]))
    }
}

/// The view of a lithology row.
pub open spec fn lythology_view(l: Lythology) -> (Seq<char>, i64, i64, Seq<char>) {
    (l.drill_no@, l.coordinate.start, l.coordinate.end, l.coordinate.lytho@)
}

/// Reads one lithology record.
pub fn parse_lythology(record: &String) -> (r: Result<Lythology, usize>)
    ensures
        match r {
            Ok(l) => lythology_spec(record@) == Ok::<(Seq<char>, i64, i64, Seq<char>), usize>(lythology_view(l)),
            Err(f) => lythology_spec(record@) == Err::<(Seq<char>, i64, i64, Seq<char>), usize>(f),
        },
{
    reveal(lythology_spec);
    let fields = semicolon_split(record);
    let start = number_field(&fields, 1);
    let end = number_field(&fields, 2);
    match (start, end) {
        (Some(start), Some(end)) => {
            if fields.len() <= 3 {
                return Err(3);
            }
            assert(field_texts(fields@)[0] == fields@[0]@);
            assert(field_texts(fields@)[3] == fields@[3]@);
            let drill_no = fields[0].clone();
            let lytho = fields[3].clone();
            Ok(Lythology::new(drill_no, LythologyCoordinate::new(start, end, lytho)))
        },
        (None, _) => Err(1),
        (_, None) => Err(2),
    }
}

/// `rows` holds, in order, the interval of every record after the first.
pub open spec fn lythology_rows(records: Seq<String>, rows: Seq<Lythology>) -> bool {
    &&& rows.len() == if records.len() == 0 { 0 } else { records.len() - 1 }
    &&& forall|i: int|
        0 <= i < rows.len() ==> lythology_spec(records[i + 1]@) == Ok::<(Seq<char>, i64, i64, Seq<char>), usize>(
            lythology_view(#[trigger] rows[i]),
        )
}

/// Record `e.record` is the first after the first that is not an interval, and fails at `e.field`.
pub open spec fn lythology_failure(records: Seq<String>, e: RecordError) -> bool {
    match e {
        RecordError::Field { record, field } => {
            &&& 1 <= record < records.len()
            &&& lythology_spec(records[record as int]@) == Err::<(Seq<char>, i64, i64, Seq<char>), usize>(field)
            &&& forall|j: int| 1 <= j < record ==> (#[trigger] lythology_spec(records[j]@)) is Ok
        },
    }
}

impl LythologyInformation {
    /// Reads the records of the lithology file.
    pub fn read(&self, records: &Vec<String>) -> (r: Result<Vec<Lythology>, RecordError>)
        ensures
            match r {
                Ok(v) => lythology_rows(records@, v@),
                Err(e) => lythology_failure(records@, e),
            },
    {
        let mut out: Vec<Lythology> = Vec::new();
        if records.len() == 0 {
            return Ok(out);
        }
        let mut i: usize = 1;
        while i < records.len()
            invariant
                1 <= i <= records@.len(),
                out@.len() == i - 1,
                forall|k: int|
                    0 <= k < out@.len() ==> lythology_spec(records@[k + 1]@) == Ok::<(Seq<char>, i64, i64, Seq<char>), usize>(
                        lythology_view(#[trigger] out@[k]),
                    ),
            decreases records@.len() - i,
        {
            match parse_lythology(&records[i]) {
                Ok(l) => {
                    out.push(l);
                },
                Err(field) => {
                    assert forall|j: int| 1 <= j < i implies (#[trigger] lythology_spec(records@[j]@)) is Ok by {
                        assert(lythology_spec(records@[(j - 1) + 1]@) == Ok::<(Seq<char>, i64, i64, Seq<char>), usize>(
                            lythology_view(out@[j - 1]),
                        ));
                    }
                    return Err(RecordError::Field { record: i, field });
                },
            }
            i = i + 1;
        }
        Ok(out)
    }
}

/// The lithology file's rows.
#[derive(Debug)]
pub struct LythologyObject {
    pub info: LythologyInformation,
    pub data: Vec<Lythology>,
}

impl LythologyObject {
    pub fn new(info: LythologyInformation, records: &Vec<String>) -> (r: Result<LythologyObject, RecordError>)
        ensures
            match r {
                Ok(o) => lythology_rows(records@, o.data@) && o.info == info,
                Err(e) => lythology_failure(records@, e),
            },
    {
        match info.read(records) {
            Ok(data) => Ok(LythologyObject { info, data }),
            Err(e) => Err(e),
        }
    }
}

/// An assay interval along a hole: from, to and grade, in thousandths.
#[derive(Debug, Clone, Copy, PartialEq, Eq, Structural)]
pub struct RawSampleCoordinate {
    pub start: i64,
    pub end: i64,
    pub percent: i64,
}

impl RawSampleCoordinate {
    pub fn new(start: i64, end: i64, percent: i64) -> (r: RawSampleCoordinate)
        ensures
            r == (RawSampleCoordinate { start, end, percent }),
    {
        RawSampleCoordinate { start, end, percent }
    }
}

/// One raw sample row.
#[derive(Debug)]
pub struct RawSample {
    pub drill_no: String,
    pub coordinate: RawSampleCoordinate,
}

impl RawSample {
    pub fn new(drill_no: String, coordinate: RawSampleCoordinate) -> (r: RawSample)
        ensures
            r.drill_no == drill_no,
            r.coordinate == coordinate,
    {
        RawSample { drill_no, coordinate }
    }
}

/// The assay that a record `drill_no;from;to;percent` spells, or its first bad field.
#[verifier::opaque]
pub open spec fn rawsample_spec(rec: Seq<char>) -> Result<(Seq<char>, RawSampleCoordinate), usize> {
    let fs = semicolon_fields(rec);
    if number_at(fs, 1) is None {
        Err(1)
    } else if number_at(fs, 2) is None {
        Err(2)
    } else if number_at(fs, 3) is None {
        Err(3)
    } else {
        Ok(
            (
                fs[0],
                RawSampleCoordinate {
                    start: number_at(fs, 1)->Some_0,
                    end: number_at(fs, 2)->Some_0,
                    percent: number_at(fs, 3)->Some_0,
                },
            ),
        )
    }
}

/// Reads one raw sample record.
pub fn parse_rawsample(record: &String) -> (r: Result<RawSample, usize>)
    ensures
        match r {
            Ok(d) => rawsample_spec(record@) == Ok::<(Seq<char>, RawSampleCoordinate), usize>(
                (d.drill_no@, d.coordinate),
            ),
            Err(f) => rawsample_spec(record@) == Err::<(Seq<char>, RawSampleCoordinate), usize>(f),
        },
{
    reveal(rawsample_spec);
    let fields = semicolon_split(record);
    let start = number_field(&fields, 1);
    let end = number_field(&fields, 2);
    let percent = number_field(&fields, 3);
    match (start, end, percent) {
        (Some(start), Some(end), Some(percent)) => {
            assert(field_texts(fields@)[0] == fields@[0]@);
            let drill_no = fields[0].clone();
            Ok(RawSample::new(drill_no, RawSampleCoordinate::new(start, end, percent)))
        },
        (None, _, _) => Err(1),
        (_, None, _) => Err(2),
        (_, _, None) => Err(3),
    }
}

/// `rows` holds, in order, the assay of every record after the first.
pub open spec fn rawsample_rows(records: Seq<String>, rows: Seq<RawSample>) -> bool {
    &&& rows.len() == if records.len() == 0 { 0 } else { records.len() - 1 }
    &&& forall|i: int|
        0 <= i < rows.len() ==> rawsample_spec(records[i + 1]@) == Ok::<(Seq<char>, RawSampleCoordinate), usize>(
            (#[trigger] rows[i].drill_no@, rows[i].coordinate),
        )
}

/// Record `e.record` is the first after the first that is not an assay, and fails at `e.field`.
pub open spec fn rawsample_failure(records: Seq<String>, e: RecordError) -> bool {
    match e {
        RecordError::Field { record, field } => {
            &&& 1 <= record < records.len()
            &&& rawsample_spec(records[record as int]@) == Err::<(Seq<char>, RawSampleCoordinate), usize>(field)
            &&& forall|j: int| 1 <= j < record ==> (#[trigger] rawsample_spec(records[j]@)) is Ok
        },
    }
}

impl RawSampleInformation {
    /// Reads the records of the raw sample file.
    pub fn read(&self, records: &Vec<String>) -> (r: Result<Vec<RawSample>, RecordError>)
        ensures
            match r {
                Ok(v) => rawsample_rows(records@, v@),
                Err(e) => rawsample_failure(records@, e),
            },
    {
        let mut out: Vec<RawSample> = Vec::new();
        if records.len() == 0 {
            return Ok(out);
        }
        let mut i: usize = 1;
        while i < records.len()
            invariant
                1 <= i <= records@.len(),
                out@.len() == i - 1,
                forall|k: int|
                    0 <= k < out@.len() ==> rawsample_spec(records@[k + 1]@) == Ok::<(Seq<char>, RawSampleCoordinate), usize>(
                        (#[trigger] out@[k].drill_no@, out@[k].coordinate),
                    ),
            decreases records@.len() - i,
        {
            match parse_rawsample(&records[i]) {
                Ok(d) => {
                    out.push(d);
                },
                Err(field) => {
                    assert forall|j: int| 1 <= j < i implies (#[trigger] rawsample_spec(records@[j]@)) is Ok by {
                        assert(rawsample_spec(records@[(j - 1) + 1]@) == Ok::<(Seq<char>, RawSampleCoordinate), usize>(
                            (out@[j - 1].drill_no@, out@[j - 1].coordinate),
                        ));
                    }
                    return Err(RecordError::Field { record: i, field });
                },
            }
            i = i + 1;
        }
        Ok(out)
    }
}

/// The raw sample file's rows.
#[derive(Debug)]
pub struct RawSampleObject {
    pub info: RawSampleInformation,
    pub data: Vec<RawSample>,
}

impl RawSampleObject {
    pub fn new(info: RawSampleInformation, records: &Vec<String>) -> (r: Result<RawSampleObject, RecordError>)
        ensures
            match r {
                Ok(o) => rawsample_rows(records@, o.data@) && o.info == info,
                Err(e) => rawsample_failure(records@, e),
            },
    {
        match info.read(records) {
            Ok(data) => Ok(RawSampleObject { info, data }),
            Err(e) => Err(e),
        }
    }
}

/// Whole source units of a fixed-point value, truncated toward zero and held to the
/// `i32` range, as a float-to-integer cast does.
pub open spec fn whole_units(v: i64) -> i32 {
    let w: int = if v >= 0 { v / 1000 } else { -((-v) / 1000) };
    if w > i32::MAX {
        i32::MAX
    } else if w < i32::MIN {
        i32::MIN
    } else {
        w as i32
    }
}

fn to_whole_units(v: i64) -> (r: i32)
    ensures
        r == whole_units(v),
{
    let w: i128 = if v >= 0 { (v / 1000) as i128 } else { -((-(v as i128)) / 1000) };
    if w > i32::MAX as i128 {
        i32::MAX
    } else if w < i32::MIN as i128 {
        i32::MIN
    } else {
        w as i32
    }
}

/// A survey reading: depth in thousandths, dip and azimuth in whole degrees.
#[derive(Debug, Clone, Copy, PartialEq, Eq, Structural)]
pub struct DrillSlopeInfo {
    pub depth: i64,
    pub dalim: i32,
    pub azimuth: i32,
}

impl DrillSlopeInfo {
    pub fn new(depth: i64, dalim: i32, azimuth: i32) -> (r: DrillSlopeInfo)
        ensures
            r == (DrillSlopeInfo { depth, dalim, azimuth }),
    {
        DrillSlopeInfo { depth, dalim, azimuth }
    }
}

/// One survey row.
#[derive(Debug)]
pub struct Slope {
    pub drill_no: String,
    pub drill_info: DrillSlopeInfo,
}

impl Slope {
    pub fn new(drill_no: String, drill_info: DrillSlopeInfo) -> (r: Slope)
        ensures
            r.drill_no == drill_no,
            r.drill_info == drill_info,
    {
        Slope { drill_no, drill_info }
    }
}

/// The reading that a record `drill_no;depth;dip;azimuth` spells, or its first bad field.
#[verifier::opaque]
pub open spec fn slope_spec(rec: Seq<char>) -> Result<(Seq<char>, DrillSlopeInfo), usize> {
    let fs = semicolon_fields(rec);
    if number_at(fs, 1) is None {
        Err(1)
    } else if number_at(fs, 2) is None {
        Err(2)
    } else if number_at(fs, 3) is None {
        Err(3)
    } else {
        Ok(
            (
                fs[0],
                DrillSlopeInfo {
                    depth: number_at(fs, 1)->Some_0,
                    dalim: whole_units(number_at(fs, 2)->Some_0),
                    azimuth: whole_units(number_at(fs, 3)->Some_0),
                },
            ),
        )
    }
}

/// Reads one survey record.
pub fn parse_slope(record: &String) -> (r: Result<Slope, usize>)
    ensures
        match r {
            Ok(d) => slope_spec(record@) == Ok::<(Seq<char>, DrillSlopeInfo), usize>(
                (d.drill_no@, d.drill_info),
            ),
            Err(f) => slope_spec(record@) == Err::<(Seq<char>, DrillSlopeInfo), usize>(f),
        },
{
    reveal(slope_spec);
    let fields = semicolon_split(record);
    let depth = number_field(&fields, 1);
    let dip = number_field(&fields, 2);
    let azimuth = number_field(&fields, 3);
    match (depth, dip, azimuth) {
        (Some(depth), Some(dip), Some(azimuth)) => {
            assert(field_texts(fields@)[0] == fields@[0]@);
            let drill_no = fields[0].clone();
            let info = DrillSlopeInfo::new(depth, to_whole_units(dip), to_whole_units(azimuth));
            Ok(Slope::new(drill_no, info))
        },
        (None, _, _) => Err(1),
        (_, None, _) => Err(2),
        (_, _, None) => Err(3),
    }
}

/// `rows` holds, in order, the reading of every record after the first.
pub open spec fn slope_rows(records: Seq<String>, rows: Seq<Slope>) -> bool {
    &&& rows.len() == if records.len() == 0 { 0 } else { records.len() - 1 }
    &&& forall|i: int|
        0 <= i < rows.len() ==> slope_spec(records[i + 1]@) == Ok::<(Seq<char>, DrillSlopeInfo), usize>(
            (#[trigger] rows[i].drill_no@, rows[i].drill_info),
        )
}

/// Record `e.record` is the first after the first that is not a reading, and fails at `e.field`.
pub open spec fn slope_failure(records: Seq<String>, e: RecordError) -> bool {
    match e {
        RecordError::Field { record, field } => {
            &&& 1 <= record < records.len()
            &&& slope_spec(records[record as int]@) == Err::<(Seq<char>, DrillSlopeInfo), usize>(field)
            &&& forall|j: int| 1 <= j < record ==> (#[trigger] slope_spec(records[j]@)) is Ok
        },
    }
}

impl SlopeInformation {
    /// Reads the records of the survey file.
    pub fn read(&self, records: &Vec<String>) -> (r: Result<Vec<Slope>, RecordError>)
        ensures
            match r {
                Ok(v) => slope_rows(records@, v@),
                Err(e) => slope_failure(records@, e),
            },
    {
        let mut out: Vec<Slope> = Vec::new();
        if records.len() == 0 {
            return Ok(out);
        }
        let mut i: usize = 1;
        while i < records.len()
            invariant
                1 <= i <= records@.len(),
                out@.len() == i - 1,
                forall|k: int|
                    0 <= k < out@.len() ==> slope_spec(records@[k + 1]@) == Ok::<(Seq<char>, DrillSlopeInfo), usize>(
                        (#[trigger] out@[k].drill_no@, out@[k].drill_info),
                    ),
            decreases records@.len() - i,
        {
            match parse_slope(&records[i]) {
                Ok(d) => {
                    out.push(d);
                },
                Err(field) => {
                    assert forall|j: int| 1 <= j < i implies (#[trigger] slope_spec(records@[j]@)) is Ok by {
                        assert(slope_spec(records@[(j - 1) + 1]@) == Ok::<(Seq<char>, DrillSlopeInfo), usize>(
                            (out@[j - 1].drill_no@, out@[j - 1].drill_info),
                        ));
                    }
                    return Err(RecordError::Field { record: i, field });
                },
            }
            i = i + 1;
        }
        Ok(out)
    }
}

/// The survey file's rows.
#[derive(Debug)]
pub struct SlopeObject {
    pub info: SlopeInformation,
    pub data: Vec<Slope>,
}

impl SlopeObject {
    pub fn new(info: SlopeInformation, records: &Vec<String>) -> (r: Result<SlopeObject, RecordError>)
        ensures
            match r {
                Ok(o) => slope_rows(records@, o.data@) && o.info == info,
                Err(e) => slope_failure(records@, e),
            },
    {
        match info.read(records) {
            Ok(data) => Ok(SlopeObject { info, data }),
            Err(e) => Err(e),
        }
    }
}

/// Position of a composite, in thousandths.
#[derive(Debug, Clone, Copy, PartialEq, Eq, Structural)]
pub struct CompositeCoordinate {
    pub x_coord: i64,
    pub y_coord: i64,
    pub z_coord: i64,
}

impl CompositeCoordinate {
    pub fn new(x: i64, y: i64, z: i64) -> (r: CompositeCoordinate)
        ensures
            r == (CompositeCoordinate { x_coord: x, y_coord: y, z_coord: z }),
    {
        CompositeCoordinate { x_coord: x, y_coord: y, z_coord: z }
    }
}

/// One composite interval.
#[derive(Debug)]
pub struct Composite {
    pub group_no: i32,
    pub tenor: i64,
    pub drill_no: String,
    pub cut_from: i64,
    pub cut_end: i64,
    pub cut_taken: i64,
    pub coordinate: CompositeCoordinate,
}

impl Composite {
    pub fn new(
        composite_no: i32,
        tenor: i64,
        drill_no: String,
        cut_from: i64,
        cut_end: i64,
        cut_taken: i64,
        coordinate: CompositeCoordinate,
    ) -> (r: Composite)
        ensures
            composite_view(r) == (composite_no, tenor, drill_no@, cut_from, cut_end, cut_taken, coordinate),
    {
        Composite { group_no: composite_no, tenor, drill_no, cut_from, cut_end, cut_taken, coordinate }
    }
}

/// The value of a composite as contracts see it.
pub type CompositeView = (i32, i64, Seq<char>, i64, i64, i64, CompositeCoordinate);

pub open spec fn composite_view(c: Composite) -> CompositeView {
    (c.group_no, c.tenor, c.drill_no@, c.cut_from, c.cut_end, c.cut_taken, c.coordinate)
}

/// What a composite line `no, x, y, z, tenor, drill_no, from, end, taken` gives:
/// nothing when its number is 0, else the composite; or its first bad field.
#[verifier::opaque]
pub open spec fn composite_spec(rec: Seq<char>) -> Result<Option<CompositeView>, usize> {
    let fs = split_on(rec, ',');
    let g = int_value(trim(encode_utf8(fs[0])));
    if g is None {
        Err(0)
    } else if g->Some_0 == 0 {
        Ok(None)
    } else if number_at(fs, 1) is None {
        Err(1)
    } else if number_at(fs, 2) is None {
        Err(2)
    } else if number_at(fs, 3) is None {
        Err(3)
    } else if number_at(fs, 4) is None {
        Err(4)
    } else if fs.len() <= 5 {
        Err(5)
    } else if number_at(fs, 6) is None {
        Err(6)
    } else if number_at(fs, 7) is None {
        Err(7)
    } else if number_at(fs, 8) is None {
        Err(8)
    } else {
        Ok(
            Some(
                (
                    g->Some_0,
                    number_at(fs, 4)->Some_0,
                    trim_chars(fs[5]),
                    number_at(fs, 6)->Some_0,
                    number_at(fs, 7)->Some_0,
                    number_at(fs, 8)->Some_0,
                    CompositeCoordinate {
                        x_coord: number_at(fs, 1)->Some_0,
                        y_coord: number_at(fs, 2)->Some_0,
                        z_coord: number_at(fs, 3)->Some_0,
                    },
                ),
            ),
        )
    }
}

/// Reads one composite line.
pub fn parse_composite(record: &String) -> (r: Result<Option<Composite>, usize>)
    ensures
        match r {
            Ok(Some(c)) => composite_spec(record@) == Ok::<Option<CompositeView>, usize>(Some(composite_view(c))),
            Ok(None) => composite_spec(record@) == Ok::<Option<CompositeView>, usize>(None),
            Err(f) => composite_spec(record@) == Err::<Option<CompositeView>, usize>(f),
        },
{
    reveal(composite_spec);
    let fields = split_chars(record.as_str(), ',');
    proof {
        lemma_split_on_len(record@, ',');
    }
    assert(field_texts(fields@)[0] == fields@[0]@);
    let g = match parse_i32(fields[0].as_str().as_bytes()) {
        Some(g) => g,
        None => {
            return Err(0);
        },
    };
    if g == 0 {
        return Ok(None);
    }
    let x = match number_field(&fields, 1) {
        Some(v) => v,
        None => {
            return Err(1);
        },
    };
    let y = match number_field(&fields, 2) {
        Some(v) => v,
        None => {
            return Err(2);
        },
    };
    let z = match number_field(&fields, 3) {
        Some(v) => v,
        None => {
            return Err(3);
        },
    };
    let tenor = match number_field(&fields, 4) {
        Some(v) => v,
        None => {
            return Err(4);
        },
    };
    if fields.len() <= 5 {
        return Err(5);
    }
    let cut_from = match number_field(&fields, 6) {
        Some(v) => v,
        None => {
            return Err(6);
        },
    };
    let cut_end = match number_field(&fields, 7) {
        Some(v) => v,
        None => {
            return Err(7);
        },
    };
    let cut_taken = match number_field(&fields, 8) {
        Some(v) => v,
        None => {
            return Err(8);
        },
    };
    assert(field_texts(fields@)[5] == fields@[5]@);
    let drill_no = trim_text(fields[5].as_str());
    let coordinate = CompositeCoordinate::new(x, y, z);
    Ok(Some(Composite::new(g, tenor, drill_no, cut_from, cut_end, cut_taken, coordinate)))
}

/// The outcome of reading composite lines from index `i` on, with `acc` read so far.
pub open spec fn composites_from(recs: Seq<String>, i: int, acc: Seq<CompositeView>) -> Result<
    Seq<CompositeView>,
    RecordError,
>
    decreases recs.len() - i,
{
    if i >= recs.len() || i < 0 {
        Ok(acc)
    } else {
        match composite_spec(recs[i]@) {
            Ok(Some(c)) => composites_from(recs, i + 1, acc.push(c)),
            Ok(None) => composites_from(recs, i + 1, acc),
            Err(f) => Err(RecordError::Field { record: i as usize, field: f }),
        }
    }
}

/// What reading a composite file's lines gives: the first line is a header, lines
/// numbered 0 are left out, and the first bad line stops the read.
pub open spec fn composites_spec(recs: Seq<String>) -> Result<Seq<CompositeView>, RecordError> {
    composites_from(recs, 1, Seq::empty())
}

impl CompositeInformation {
    /// Reads the lines of the composite file.
    pub fn read(&self, lines: &Vec<String>) -> (r: Result<Vec<Composite>, RecordError>)
        ensures
            match r {
                Ok(v) => composites_spec(lines@) == Ok::<Seq<CompositeView>, RecordError>(
                    v@.map_values(|c: Composite| composite_view(c)),
                ),
                Err(e) => composites_spec(lines@) == Err::<Seq<CompositeView>, RecordError>(e),
            },
    {
        let mut out: Vec<Composite> = Vec::new();
        assert(out@.map_values(|c: Composite| composite_view(c)) =~= Seq::<CompositeView>::empty());
        if lines.len() == 0 {
            return Ok(out);
        }
        let mut i: usize = 1;
        assert(out@.map_values(|c: Composite| composite_view(c)) =~= Seq::<CompositeView>::empty());
        while i < lines.len()
            invariant
                1 <= i <= lines@.len(),
                composites_spec(lines@) == composites_from(
                    lines@,
                    i as int,
                    out@.map_values(|c: Composite| composite_view(c)),
                ),
            decreases lines@.len() - i,
        {
            match parse_composite(&lines[i]) {
                Ok(Some(c)) => {
                    let ghost before = out@.map_values(|c: Composite| composite_view(c));
                    let ghost cv = composite_view(c);
                    out.push(c);
                    assert(out@.map_values(|c: Composite| composite_view(c)) =~= before.push(cv));
                },
                Ok(None) => {},
                Err(field) => {
                    return Err(RecordError::Field { record: i, field });
                },
            }
            i = i + 1;
        }
        Ok(out)
    }
}

/// The composite file's rows.
#[derive(Debug)]
pub struct CompositeObject {
    pub info: CompositeInformation,
    pub data: Vec<Composite>,
}

impl CompositeObject {
    pub fn new(info: CompositeInformation, lines: &Vec<String>) -> (r: Result<CompositeObject, RecordError>)
        ensures
            match r {
                Ok(o) => o.info == info && composites_spec(lines@) == Ok::<Seq<CompositeView>, RecordError>(
                    o.data@.map_values(|c: Composite| composite_view(c)),
                ),
                Err(e) => composites_spec(lines@) == Err::<Seq<CompositeView>, RecordError>(e),
            },
    {
        match info.read(lines) {
            Ok(data) => Ok(CompositeObject { info, data }),
            Err(e) => Err(e),
        }
    }
}

} // verus!
