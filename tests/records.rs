use std::collections::HashMap;

use data_management::paths::{
    CompositeInformation, DrillInformation, LythologyInformation, RawSampleInformation, SlopeInformation,
};
use data_management::records::{
    parse_composite, parse_drill, parse_lythology, parse_slope, CompositeObject, DrillObject, DrillSlopeInfo,
    LythologyObject, RawSampleObject, RecordError, SlopeObject,
};

fn owned(lines: &[&str]) -> Vec<String> {
    lines.iter().map(|l| l.to_string()).collect()
}

#[test]
fn drill_record_fields() {
    let d = parse_drill(&"K-12;100.5;200;50.25;120".to_string()).unwrap();
    assert_eq!(d.drill_no, "K-12");
    assert_eq!(
        (d.coordinate.x_coord, d.coordinate.y_coord, d.coordinate.z_coord, d.coordinate.depth),
        (100_500, 200_000, 50_250, 120_000)
    );
    assert_eq!(parse_drill(&"K-12;1;2;3".to_string()).err(), Some(4));
}

#[test]
fn drill_file_skips_first_record() {
    let info = DrillInformation::new("d.csv".to_string(), "Cu".to_string(), ';', HashMap::new());
    let object = DrillObject::new(info, &owned(&["K-0;0;0;0;0", "K-1;1;2;3;4", "K-2;5;6;7;8"])).unwrap();
    assert_eq!(object.data.len(), 2);
    assert_eq!(object.data[0].drill_no, "K-1");
    assert_eq!(object.data[1].coordinate.depth, 8_000);
}

#[test]
fn drill_file_reports_first_bad_record() {
    let info = DrillInformation::new("d.csv".to_string(), "Cu".to_string(), ';', HashMap::new());
    let r = info.read(&owned(&["header", "K-1;1;2;3;4", "K-2;5;x;7;8", "K-3;;;;"]));
    assert_eq!(r.err(), Some(RecordError::Field { record: 2, field: 2 }));
}

#[test]
fn lythology_rows() {
    let l = parse_lythology(&"K-1;0;2.5;granite".to_string()).unwrap();
    assert_eq!((l.coordinate.start, l.coordinate.end), (0, 2_500));
    assert_eq!(l.coordinate.lytho, "granite");
    assert_eq!(parse_lythology(&"K-1;0;2.5".to_string()).err(), Some(3));
    let info = LythologyInformation::new("l.csv".to_string(), "Cu".to_string(), ';', HashMap::new());
    let object = LythologyObject::new(info, &owned(&["skip", "K-1;0;2.5;granite"])).unwrap();
    assert_eq!(object.data[0].drill_no, "K-1");
}

#[test]
fn raw_sample_rows() {
    let info = RawSampleInformation::new("r.csv".to_string(), "Cu".to_string(), ';', HashMap::new());
    let object = RawSampleObject::new(info, &owned(&["skip", "K-1;1;2;0.75"])).unwrap();
    let c = object.data[0].coordinate;
    assert_eq!((c.start, c.end, c.percent), (1_000, 2_000, 750));
    let info = RawSampleInformation::new("r.csv".to_string(), "Cu".to_string(), ';', HashMap::new());
    assert_eq!(
        RawSampleObject::new(info, &owned(&["skip", "K-1;1;two;0.75"])).err(),
        Some(RecordError::Field { record: 1, field: 2 })
    );
}

#[test]
fn slope_angles_truncate_to_whole_degrees() {
    let s = parse_slope(&"K-1;10.5;-45.9;270.2".to_string()).unwrap();
    assert_eq!(s.drill_info, DrillSlopeInfo { depth: 10_500, dalim: -45, azimuth: 270 });
    let big = parse_slope(&"K-1;1;3000000000;-3000000000".to_string()).unwrap();
    assert_eq!((big.drill_info.dalim, big.drill_info.azimuth), (i32::MAX, i32::MIN));
    let info = SlopeInformation::new("s.csv".to_string(), "Cu".to_string(), ';', HashMap::new());
    let object = SlopeObject::new(info, &owned(&["skip", "K-1;10.5;-45.9;270.2"])).unwrap();
    assert_eq!(object.data.len(), 1);
}

#[test]
fn composite_lines() {
    let c = parse_composite(&"1, 10, 20, 30, 1.5, D7 , 0, 2, 2".to_string()).unwrap().unwrap();
    assert_eq!(c.group_no, 1);
    assert_eq!(c.tenor, 1_500);
    assert_eq!(c.drill_no, "D7");
    assert_eq!((c.coordinate.x_coord, c.coordinate.y_coord, c.coordinate.z_coord), (10_000, 20_000, 30_000));
    assert_eq!((c.cut_from, c.cut_end, c.cut_taken), (0, 2_000, 2_000));
    assert!(parse_composite(&"0, anything".to_string()).unwrap().is_none());
    assert_eq!(parse_composite(&"x,1,2".to_string()).err(), Some(0));
    assert_eq!(parse_composite(&"3,1,2,3,4".to_string()).err(), Some(5));
}

#[test]
fn composite_file_leaves_zero_rows_out() {
    let info = CompositeInformation::new("c.str".to_string(), "Cu".to_string(), ',');
    let lines = owned(&["header", "1,1,2,3,4,D1,5,6,7", "0,,,", "2,1,2,3,4,D2,5,6,7"]);
    let object = CompositeObject::new(info, &lines).unwrap();
    let groups: Vec<i32> = object.data.iter().map(|c| c.group_no).collect();
    assert_eq!(groups, vec![1, 2]);
    let info = CompositeInformation::new("c.str".to_string(), "Cu".to_string(), ',');
    let bad = owned(&["header", "1,1,2,3,4,D1,5,6,7", "2,1,2,3,4,D2,5,6"]);
    assert_eq!(info.read(&bad).err(), Some(RecordError::Field { record: 2, field: 8 }));
}
