use polargraph::methods::{
    AtomMethod, CustomMethod, CustomParameters, LinesMethod, LinesParameters, VinylMethod,
};
use polargraph::stipple::{get_edge_triangles, Triangle};

#[test]
fn edge_indexes_of_a_triangle() {
    assert_eq!(
        Triangle::get_edge_indexes(&[4, 7, 9]),
        [(4, 7), (7, 9), (4, 9)]
    );
}

#[test]
fn edge_triangles_name_both_sides_of_a_shared_edge() {
    let triangles = vec![[0, 1, 2], [1, 2, 3]];
    let map = get_edge_triangles(&triangles).unwrap();

    // the shared edge names both triangles; each asks for its neighbour
    assert_eq!(Triangle::get_neighbouring_triangle(0, (1, 2), &map), Some(1));
    assert_eq!(Triangle::get_neighbouring_triangle(1, (2, 1), &map), Some(0));

    // hull edges belong to one triangle only
    assert_eq!(Triangle::get_neighbouring_triangle(0, (0, 1), &map), None);
    assert_eq!(Triangle::get_neighbouring_triangle(1, (2, 3), &map), None);

    // an edge of no triangle at all has no entry
    assert_eq!(Triangle::get_neighbouring_triangle(0, (0, 9), &map), None);
}

#[test]
fn method_names_are_stable() {
    assert_eq!(AtomMethod.get_id(), "atom");
    assert_eq!(AtomMethod.get_formatted_name(), "Atom");
    assert_eq!(LinesMethod.get_id(), "lines");
    assert_eq!(LinesMethod.get_formatted_name(), "Lines");
    assert_eq!(CustomMethod.get_id(), "custom");
    assert_eq!(VinylMethod.get_formatted_name(), "Vinyl");
}

#[test]
fn parameter_bundles_carry_their_fields() {
    let lines = LinesParameters { num_lines: 12, horizontal_margin: 30 };
    assert_eq!(lines.num_lines, 12);
    assert_eq!(lines.horizontal_margin, 30);

    let custom = CustomParameters {
        plugin_path: "plugins/spiral.py".to_owned(),
        plugin_parameters_json: "{\"turns\": 9}".to_owned(),
    };
    assert_eq!(custom.plugin_path, "plugins/spiral.py");
    assert_eq!(custom.plugin_parameters_json, "{\"turns\": 9}");
}
