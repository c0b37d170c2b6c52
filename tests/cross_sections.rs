use data_management::collection::CrossObject;
use data_management::geometry::{Axis, Cross, CrossCoordinate2d, CrossCoordinate3d, Extent};
use data_management::hull::HullError;
use data_management::parser::{read_cross_lines, CrossInformation, CrossReadError};
use data_management::{dedup, parse_fixed, sort_by_axis, HULL_COORD_LIMIT};

const MARKER: &str = "0, 0.000, 0.000, 0.000,";

fn owned(lines: &[&str]) -> Vec<String> {
    lines.iter().map(|l| l.to_string()).collect()
}

fn v(x: i64, y: i64, z: i64, id: i32) -> CrossCoordinate3d {
    CrossCoordinate3d::new(x, y, z, id)
}

fn info() -> CrossInformation {
    CrossInformation::new("sections.str".to_string(), "Cu".to_string(), MARKER.to_string())
}

fn three_sections() -> Vec<String> {
    owned(&[
        "header one",
        "header two",
        "1, 100.0, 50.0, 30.0,",
        "1, 110.0, 60.0, 35.0,",
        MARKER,
        "2, 100.0, 50.0, -10.0,",
        "2, 120.0, 55.0, -5.0,",
        "2, 130.0, 40.0, 0.0,",
        MARKER,
        "3, 90.0, 45.0, 10.0,",
        "3, 95.0, 70.0, 12.5,",
        MARKER,
    ])
}

#[test]
fn it_works() {
    assert_eq!(2 + 2, 4);
}

#[test]
fn read_cross_section_from_config() {
    let object = CrossObject::new(info(), &three_sections()).unwrap();
    assert_eq!(object.data.len(), 3);
    assert_eq!(object.info.seperator, MARKER);
    assert_eq!(object.info.mining_type, "Cu");
}

#[test]
fn order_crosses_by_z() {
    let object = CrossObject::new(info(), &three_sections()).unwrap();
    for i in 1..object.data.len() {
        let c1 = &object.data[i];
        let c2 = &object.data[i - 1];
        assert!(c1.give_minimum_z_value() >= c2.give_minimum_z_value());
    }
    let groups: Vec<i32> = object.data.iter().map(|c| c.group_no).collect();
    assert_eq!(groups, vec![2, 3, 1]);
}

#[test]
fn trailing_group_without_marker_is_dropped() {
    let lines = owned(&["h1", "h2", "1,10,10,0", "1,20,10,0", MARKER, "1,15,25,5", "1,25,25,5", "1,25,15,5"]);
    let crosses = read_cross_lines(&lines, MARKER, true, false).unwrap();
    assert_eq!(crosses.len(), 1);
    assert_eq!(crosses[0].group_no, 1);
    assert_eq!(crosses[0].coordinate, vec![v(10_000, 10_000, 0, 1), v(20_000, 10_000, 0, 2)]);
}

#[test]
fn trailing_group_kept_when_flushing() {
    let lines = owned(&["h1", "h2", "1,10,10,0", "1,20,10,0", MARKER, "1,15,25,5", "1,25,25,5", "1,25,15,5"]);
    let crosses = read_cross_lines(&lines, MARKER, true, true).unwrap();
    assert_eq!(crosses.len(), 2);
    assert_eq!(crosses[1].group_no, 2);
    assert_eq!(
        crosses[1].coordinate,
        vec![v(15_000, 25_000, 5_000, 1), v(25_000, 25_000, 5_000, 2), v(25_000, 15_000, 5_000, 3)]
    );
}

#[test]
fn group_numbers_count_marker_lines() {
    let crosses = read_cross_lines(&three_sections(), MARKER, true, false).unwrap();
    let groups: Vec<i32> = crosses.iter().map(|c| c.group_no).collect();
    assert_eq!(groups, vec![1, 2, 3]);
    assert_eq!(*groups.iter().max().unwrap(), 3);
}

#[test]
fn short_groups_are_never_kept() {
    let lines = owned(&["h1", "h2", "1,1,1,1", MARKER, MARKER, "1,2,2,2", "1,3,3,3", MARKER, "1,4,4,4", MARKER]);
    let crosses = read_cross_lines(&lines, MARKER, true, false).unwrap();
    assert_eq!(crosses.len(), 1);
    assert_eq!(crosses[0].group_no, 3);
    assert!(crosses.iter().all(|c| c.coordinate.len() >= 2));
}

#[test]
fn header_lines_are_skipped() {
    let lines = owned(&["1,5,5,5", "1,6,6,6", "1,7,7,7", "1,8,8,8", MARKER]);
    let crosses = read_cross_lines(&lines, MARKER, true, false).unwrap();
    assert_eq!(crosses.len(), 1);
    assert_eq!(crosses[0].coordinate, vec![v(7_000, 7_000, 7_000, 1), v(8_000, 8_000, 8_000, 2)]);
    assert!(read_cross_lines(&owned(&["only one line"]), MARKER, true, false).unwrap().is_empty());
}

#[test]
fn parsing_twice_gives_the_same_crosses() {
    let first = read_cross_lines(&three_sections(), MARKER, true, false).unwrap();
    let second = read_cross_lines(&three_sections(), MARKER, true, false).unwrap();
    assert_eq!(first, second);
}

#[test]
fn bad_number_names_line_and_field() {
    let lines = owned(&["h1", "h2", "1,10,10,0", "1,20,ten,0", MARKER]);
    assert_eq!(
        read_cross_lines(&lines, MARKER, true, false),
        Err(CrossReadError::NumericField { line: 4, field: 2 })
    );
}

#[test]
fn missing_field_is_an_error() {
    let lines = owned(&["h1", "h2", "1,10,10"]);
    assert_eq!(
        read_cross_lines(&lines, MARKER, true, false),
        Err(CrossReadError::NumericField { line: 3, field: 3 })
    );
    let object = CrossObject::new(info(), &lines);
    assert_eq!(object.err(), Some(CrossReadError::NumericField { line: 3, field: 3 }));
}

#[test]
fn decimal_fields_become_thousandths() {
    let lines = owned(&["h1", "h2", "7, 1.5 , -2.25,\t+3.0004 ", "8,.5,5.,-0", MARKER]);
    let crosses = read_cross_lines(&lines, MARKER, true, false).unwrap();
    assert_eq!(crosses[0].coordinate, vec![v(1_500, -2_250, 3_000, 1), v(500, 5_000, 0, 2)]);
}

#[test]
fn fixed_point_parsing() {
    assert_eq!(parse_fixed(b"10"), Some(10_000));
    assert_eq!(parse_fixed(b"  -1.2345 "), Some(-1_234));
    assert_eq!(parse_fixed(b"0.001"), Some(1));
    assert_eq!(parse_fixed(b"9223372036854775.807"), Some(i64::MAX));
    assert_eq!(parse_fixed(b"9223372036854775.808"), None);
    assert_eq!(parse_fixed(b"99999999999999999999"), None);
    assert_eq!(parse_fixed(b"1e5"), None);
    assert_eq!(parse_fixed(b"."), None);
    assert_eq!(parse_fixed(b"-"), None);
    assert_eq!(parse_fixed(b""), None);
    assert_eq!(parse_fixed(b"1.2.3"), None);
}

#[test]
fn duplicates_are_avoided_only_when_asked() {
    let a = Cross::new(1, vec![v(0, 0, 0, 1), v(1, 1, 1, 2)]);
    let b = Cross::new(1, vec![v(0, 0, 0, 1), v(1, 1, 1, 2)]);
    let c = Cross::new(2, vec![v(0, 0, 0, 1), v(1, 1, 1, 2)]);
    assert!(a == b);
    assert!(a != c);
    let kept = dedup(vec![a, b, c]);
    assert_eq!(kept.len(), 2);
    assert_eq!(kept[0].group_no, 1);
    assert_eq!(kept[1].group_no, 2);
}

#[test]
fn same_vertices_under_other_group_are_not_duplicates() {
    let first = Cross::new(4, vec![v(5, 5, 5, 1), v(6, 6, 6, 2)]);
    let second = Cross::new(9, vec![v(5, 5, 5, 1), v(6, 6, 6, 2)]);
    let kept = dedup(vec![first, second]);
    assert_eq!(kept.len(), 2);
    let mut object = CrossObject::new(info(), &three_sections()).unwrap();
    object.data.push(Cross::new(7, vec![v(5, 5, 5, 1), v(6, 6, 6, 2)]));
    object.data.push(Cross::new(7, vec![v(5, 5, 5, 1), v(6, 6, 6, 2)]));
    object.data.push(Cross::new(8, vec![v(5, 5, 5, 1), v(6, 6, 6, 2)]));
    assert_eq!(object.take_duplicates(), vec![7]);
    object.remove_duplicates();
    assert_eq!(object.data.len(), 5);
}

#[test]
fn dedup_twice_equals_once() {
    let make = || {
        vec![
            Cross::new(1, vec![v(0, 0, 0, 1), v(1, 0, 0, 2)]),
            Cross::new(2, vec![v(0, 0, 0, 1), v(1, 0, 0, 2)]),
            Cross::new(1, vec![v(0, 0, 0, 1), v(1, 0, 0, 2)]),
            Cross::new(2, vec![v(0, 0, 0, 1), v(1, 0, 0, 2)]),
            Cross::new(3, vec![v(9, 9, 9, 1), v(8, 8, 8, 2)]),
        ]
    };
    let once = dedup(make());
    let twice = dedup(dedup(make()));
    assert_eq!(once, twice);
    assert_eq!(once.iter().map(|c| c.group_no).collect::<Vec<_>>(), vec![1, 2, 3]);
}

fn z_crosses() -> Vec<Cross> {
    vec![
        Cross::new(1, vec![v(0, 0, 50, 1), v(1, 1, 60, 2)]),
        Cross::new(2, vec![v(0, 0, 10, 1), v(1, 1, 90, 2)]),
        Cross::new(3, vec![v(5, 5, 50, 1), v(1, 1, 55, 2)]),
        Cross::new(4, vec![v(0, 0, -5, 1), v(1, 1, 0, 2)]),
    ]
}

#[test]
fn sort_is_stable_by_axis_minimum() {
    let sorted = sort_by_axis(z_crosses(), Axis::Z);
    let groups: Vec<i32> = sorted.iter().map(|c| c.group_no).collect();
    assert_eq!(groups, vec![4, 2, 1, 3]);
    let by_x = sort_by_axis(z_crosses(), Axis::X);
    assert_eq!(by_x.iter().map(|c| c.group_no).collect::<Vec<_>>(), vec![1, 2, 4, 3]);
}

#[test]
fn sorting_sorted_data_changes_nothing() {
    let once = sort_by_axis(z_crosses(), Axis::Z);
    let twice = sort_by_axis(sort_by_axis(z_crosses(), Axis::Z), Axis::Z);
    assert_eq!(once, twice);
    let mut object = CrossObject::new(info(), &three_sections()).unwrap();
    let before: Vec<i32> = object.data.iter().map(|c| c.group_no).collect();
    object.sort_crosses_data(Axis::Z);
    let after: Vec<i32> = object.data.iter().map(|c| c.group_no).collect();
    assert_eq!(before, after);
}

#[test]
fn full_frame_contains_every_vertex() {
    let object = CrossObject::new(info(), &three_sections()).unwrap();
    let frame = object.find_full_model_frame();
    assert_eq!(frame, Extent::new(90_000, 40_000, -10_000, 130_000, 70_000, 35_000));
    for c in &object.data {
        for p in &c.coordinate {
            assert!(frame.min_x <= p.x_coord && p.x_coord <= frame.max_x);
            assert!(frame.min_y <= p.y_coord && p.y_coord <= frame.max_y);
            assert!(frame.min_z <= p.z_coord && p.z_coord <= frame.max_z);
        }
    }
}

#[test]
fn first_last_frame_misses_skewed_vertices() {
    let object = CrossObject::new(info(), &three_sections()).unwrap();
    let shortcut = object.find_model_frame();
    // first after the z sort is group 2, last is group 1
    assert_eq!(shortcut, Extent::new(100_000, 40_000, -10_000, 110_000, 60_000, 35_000));
    let full = object.find_full_model_frame();
    assert_ne!(shortcut, full);
    assert!(full.max_x > shortcut.max_x);
}

#[test]
fn pair_frame_is_symmetric() {
    let a = Cross::new(1, vec![v(0, 5, 10, 1), v(3, -2, 4, 2)]);
    let b = Cross::new(2, vec![v(-1, 7, 2, 1), v(2, 0, 12, 2)]);
    let ab = a.find_two_cross_frame(&b);
    let ba = b.find_two_cross_frame(&a);
    assert_eq!(ab, ba);
    assert_eq!(ab, Extent::new(-1, -2, 2, 3, 7, 12));
}

fn corners(ring: &[(i64, i64)]) -> Vec<(i64, i64)> {
    let mut pts: Vec<(i64, i64)> = ring[..ring.len() - 1].to_vec();
    pts.sort();
    pts
}

#[test]
fn square_hull_has_four_corners() {
    let square = Cross::new(1, vec![v(0, 0, 0, 1), v(10, 0, 0, 2), v(10, 10, 0, 3), v(0, 10, 0, 4)]);
    let ring = square.create_polygon_convex_hull().unwrap();
    assert_eq!(ring.len(), 5);
    assert_eq!(ring[0], ring[4]);
    assert_eq!(corners(&ring), vec![(0, 0), (0, 10), (10, 0), (10, 10)]);
}

#[test]
fn hull_leaves_interior_points_out() {
    let shape = Cross::new(1, vec![v(0, 0, 3, 1), v(5, 5, 1, 2), v(10, 0, 0, 3), v(10, 10, 0, 4), v(0, 10, 7, 5)]);
    let ring = shape.create_polygon_convex_hull().unwrap();
    assert_eq!(corners(&ring), vec![(0, 0), (0, 10), (10, 0), (10, 10)]);
}

#[test]
fn hull_needs_three_distinct_points() {
    let line = Cross::new(1, vec![v(0, 0, 0, 1), v(4, 4, 0, 2), v(0, 0, 9, 3), v(4, 4, 1, 4)]);
    assert_eq!(line.create_polygon_convex_hull(), Err(HullError::TooFewDistinctPoints));
    let far = Cross::new(1, vec![v(0, 0, 0, 1), v(HULL_COORD_LIMIT + 1, 0, 0, 2), v(0, 1, 0, 3)]);
    assert_eq!(far.create_polygon_convex_hull(), Err(HullError::CoordinateOutOfRange));
}

#[test]
fn per_cross_queries() {
    let c = Cross::new(5, vec![v(3, 8, -1, 1), v(-2, 4, 6, 2), v(7, 5, 2, 3), v(7, 1, 0, 4)]);
    assert_eq!(c.per_cross_extrema(Axis::X), (-2, 7));
    assert_eq!(c.per_cross_extrema(Axis::Y), (1, 8));
    assert_eq!(c.per_cross_extrema(Axis::Z), (-1, 6));
    assert_eq!(c.give_minimum_x_value(), -2);
    assert_eq!(c.give_maximum_y_value(), 8);
    assert_eq!(c.find_orient_2d(), Axis::X);
    assert_eq!(c.find_vertex_id_via_value_of_axis(7, Axis::X), Some(4));
    assert_eq!(c.find_vertex_id_via_value_of_axis(9, Axis::Y), None);
    let tall = Cross::new(6, vec![v(0, 0, 0, 1), v(1, 9, 0, 2)]);
    assert_eq!(tall.find_orient_2d(), Axis::Y);
    assert_eq!(c.difference_self_minimum_axis_value_from_other_cross(&tall, Axis::X), -2);
    assert_eq!(
        c.clone_coordinates_2d()[1],
        CrossCoordinate2d::new(-2, 4, 2)
    );
    assert_eq!(tall.clone_coordinates_2d_with_points(), vec![(0, 0), (1, 9)]);
    assert!(v(1, 2, 3, 1).eq_test(&v(1, 2, 3, 9)));
    assert!(!v(1, 2, 3, 1).eq_test(&v(1, 2, 4, 1)));
    assert_eq!(Axis::Z.name(), "Z");
}

#[test]
fn collection_queries() {
    let mut object = CrossObject::new(info(), &three_sections()).unwrap();
    assert_eq!(object.get_deeper_than_min_drill(0), vec![2]);
    assert_eq!(object.get_deeper_than_min_drill(10_000), vec![2, 3]);
    assert_eq!(object.take_min_axis_coordinate_from_crosses(Axis::X), 90_000);
    assert_eq!(object.get_min_axis_value(Axis::Z), -10_000);
    assert_eq!(object.get_cross_by_groupno(3).map(|c| c.coordinate.len()), Some(2));
    assert!(object.get_cross_by_groupno(42).is_none());
    let (xs, ys) = object.points_to_draw(1).unwrap();
    assert_eq!(xs, vec![90_000, 95_000]);
    assert_eq!(ys, vec![45_000, 70_000]);
    assert!(object.points_to_draw(3).is_none());
    object.remove_crosses_by_group_numbers(vec![1, 3]);
    assert_eq!(object.data.iter().map(|c| c.group_no).collect::<Vec<_>>(), vec![3, 1]);
}
