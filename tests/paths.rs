use std::collections::HashMap;

use data_management::paths::{CSVPath, DrillInformation, STRPath, SlopeInformation};

#[test]
fn csv_paths_are_kept_apart() {
    let p = CSVPath::new("d.csv".to_string(), "l.csv".to_string(), "s.csv".to_string(), "r.csv".to_string());
    assert_eq!(p.clone_drill_csv_wpath(), "d.csv");
    assert_eq!(p.clone_lythology_csv_path(), "l.csv");
    assert_eq!(p.clone_slope_csv_path(), "s.csv");
    assert_eq!(p.clone_rawsample_csv_path(), "r.csv");
}

#[test]
fn str_paths_are_kept_apart() {
    let p = STRPath::new("cross.str".to_string(), "comp.str".to_string());
    assert_eq!(p.clone_cross_section_path(), "cross.str");
    assert_eq!(p.clone_composite_path(), "comp.str");
}

#[test]
fn information_records_keep_their_settings() {
    let mut columns = HashMap::new();
    columns.insert("X".to_string(), "x_col".to_string());
    let d = DrillInformation::new("d.csv".to_string(), "Cu".to_string(), ';', columns.clone());
    assert_eq!(d.seperator, ';');
    assert_eq!(d.columns, columns);
    let s = SlopeInformation::new("s.csv".to_string(), "Au".to_string(), ',', HashMap::new());
    assert_eq!(s.mining_type, "Au");
}
