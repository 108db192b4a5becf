use zx2stim::coord::Coord;
use zx2stim::diagram::{Diagram, Role, VertexData};
use zx2stim::translate::{Pauli, TranslateError, Web, WebEntry, zx_to_stim};

fn coord(x: f64) -> Coord {
    Coord { bits: x.to_bits() }
}

fn vertex(role: Role, qubit: f64, row: f64) -> VertexData {
    VertexData { role, qubit: coord(qubit), row: coord(row) }
}

/// The two-vertex diagram shared by several tests: a Z-spider at row 0 and
/// an X-spider at row 1 on the same qubit, joined by one edge.
fn two_vertex_diagram() -> Diagram {
    Diagram {
        vertices: vec![
            vertex(Role::ZSpider, 0.0, 0.0),
            vertex(Role::XSpider, 0.0, 1.0),
        ],
        edges: vec![(0, 1)],
    }
}

#[test]
fn scenario_basis_change_then_measure() {
    let d = two_vertex_diagram();
    let webs: Vec<Web> = vec![];
    let out = zx_to_stim(&d, &webs).unwrap();
    assert_eq!(out, "H 0\nTICK\nMR 0\nTICK");
}

#[test]
fn scenario_single_web_single_term() {
    let d = two_vertex_diagram();
    // A Z label pairs with the X-spider endpoint, which holds the one
    // measurement record; the Z-spider endpoint holds none.
    let webs = vec![Web { entries: vec![WebEntry { a: 0, b: 1, pauli: Pauli::Z }] }];
    let out = zx_to_stim(&d, &webs).unwrap();
    assert_eq!(out, "H 0\nTICK\nMR 0\nTICK\nDETECTOR rec[-1]");
}

#[test]
fn scenario_unsupported_degree_diagnostic() {
    // The two-vertex diagram plus a degree-5 star in row 0: exactly one
    // comment-only diagnostic appears, naming degree 5 and the vertex,
    // and the surrounding instructions are unchanged.
    let mut vertices = vec![
        vertex(Role::ZSpider, 0.0, 0.0),
        vertex(Role::XSpider, 0.0, 1.0),
        vertex(Role::ZSpider, 1.0, 0.0),
    ];
    let mut edges = vec![(0, 1)];
    for i in 0..5 {
        vertices.push(vertex(Role::Boundary, 2.0 + i as f64, 0.0));
        edges.push((2, 3 + i));
    }
    let d = Diagram { vertices, edges };
    let webs: Vec<Web> = vec![];
    let out = zx_to_stim(&d, &webs).unwrap();
    assert_eq!(out, "H 0\n# Unsupported node degree 5: 2\nTICK\nMR 0\nTICK");
}

#[test]
fn translation_is_deterministic() {
    let d = two_vertex_diagram();
    let webs = vec![Web { entries: vec![WebEntry { a: 0, b: 1, pauli: Pauli::Z }] }];
    let first = zx_to_stim(&d, &webs).unwrap();
    let second = zx_to_stim(&d, &webs).unwrap();
    assert_eq!(first, second);
}

#[test]
fn one_marker_per_distinct_row() {
    // Three distinct rows, nothing else to emit: exactly three markers.
    // Also shows that boundary and degree-2 vertices contribute nothing.
    let d = Diagram {
        vertices: vec![
            vertex(Role::Boundary, 0.0, 0.0),
            vertex(Role::ZSpider, 0.0, 1.0),
            vertex(Role::Boundary, 0.0, 2.0),
        ],
        edges: vec![(0, 1), (1, 2)],
    };
    let webs: Vec<Web> = vec![];
    let out = zx_to_stim(&d, &webs).unwrap();
    assert_eq!(out, "TICK\nTICK\nTICK");
}

#[test]
fn equal_rows_share_one_marker() {
    // Numerically equal row coordinates fall into one row: one marker.
    let d = Diagram {
        vertices: vec![
            vertex(Role::Boundary, 0.0, 5.0),
            vertex(Role::Boundary, 1.0, 5.0),
        ],
        edges: vec![(0, 1)],
    };
    let webs: Vec<Web> = vec![];
    let out = zx_to_stim(&d, &webs).unwrap();
    assert_eq!(out, "TICK");
}

#[test]
fn z_spider_emits_controlled_instructions() {
    // A degree-3 Z-spider: one CNOT per neighbor on a different canonical
    // qubit; the neighbor sharing its qubit is skipped as a wiring
    // artifact.
    let d = Diagram {
        vertices: vec![
            vertex(Role::ZSpider, 0.0, 0.0),
            vertex(Role::XSpider, 0.0, 0.0),
            vertex(Role::XSpider, 1.0, 0.0),
            vertex(Role::XSpider, 2.0, 0.0),
        ],
        edges: vec![(0, 1), (0, 2), (0, 3)],
    };
    let webs: Vec<Web> = vec![];
    let out = zx_to_stim(&d, &webs).unwrap();
    assert_eq!(out, "CNOT 0 1\nCNOT 0 2\nTICK");
}

#[test]
fn x_spider_defers_controlled_instructions() {
    // A degree-3 X-spider emits nothing itself; without a Z-spider
    // control neighbor no controlled instruction appears at all.
    let d = Diagram {
        vertices: vec![
            vertex(Role::XSpider, 0.0, 0.0),
            vertex(Role::ZSpider, 1.0, 0.0),
            vertex(Role::ZSpider, 2.0, 0.0),
            vertex(Role::ZSpider, 3.0, 0.0),
        ],
        edges: vec![(0, 1), (0, 2), (0, 3)],
    };
    let webs: Vec<Web> = vec![];
    let out = zx_to_stim(&d, &webs).unwrap();
    // The three Z-spider leaves each emit a basis change; no CNOT.
    assert_eq!(out, "H 1\nH 2\nH 3\nTICK");
}

#[test]
fn nan_coordinate_is_rejected() {
    let d = Diagram {
        vertices: vec![vertex(Role::ZSpider, f64::NAN, 0.0)],
        edges: vec![],
    };
    let webs: Vec<Web> = vec![];
    assert_eq!(zx_to_stim(&d, &webs), Err(TranslateError::InvalidCoordinate));

    let d2 = Diagram {
        vertices: vec![vertex(Role::ZSpider, 0.0, f64::NAN)],
        edges: vec![],
    };
    assert_eq!(zx_to_stim(&d2, &webs), Err(TranslateError::InvalidCoordinate));
}

#[test]
fn empty_diagram_yields_empty_program() {
    let d = Diagram { vertices: vec![], edges: vec![] };
    let webs: Vec<Web> = vec![];
    assert_eq!(zx_to_stim(&d, &webs).unwrap(), "");
}

#[test]
fn inconsistent_labels_yield_no_detector() {
    // An X label only pairs with a Z-spider endpoint; here it meets the
    // recorded X-spider, so the web collects no term and is dropped.
    let d = two_vertex_diagram();
    let webs = vec![Web { entries: vec![WebEntry { a: 0, b: 1, pauli: Pauli::X }] }];
    let out = zx_to_stim(&d, &webs).unwrap();
    assert_eq!(out, "H 0\nTICK\nMR 0\nTICK");
}

#[test]
fn many_qubits_and_relative_offsets() {
    // Twelve columns of the two-vertex pattern: canonical qubit indices
    // reach double digits, and the two webs reference the first and the
    // last record, giving offsets 12 and 1 of 12 measurements.
    let mut vertices = Vec::new();
    let mut edges = Vec::new();
    for c in 0..12 {
        vertices.push(vertex(Role::ZSpider, c as f64, 0.0));
        vertices.push(vertex(Role::XSpider, c as f64, 1.0));
        edges.push((2 * c, 2 * c + 1));
    }
    let d = Diagram { vertices, edges };
    let webs = vec![
        Web { entries: vec![WebEntry { a: 0, b: 1, pauli: Pauli::Z }] },
        Web { entries: vec![WebEntry { a: 22, b: 23, pauli: Pauli::Z }] },
    ];
    let out = zx_to_stim(&d, &webs).unwrap();
    let mut expected = String::new();
    for c in 0..12 {
        expected.push_str(&format!("H {}\n", c));
    }
    expected.push_str("TICK\n");
    for c in 0..12 {
        expected.push_str(&format!("MR {}\n", c));
    }
    expected.push_str("TICK\nDETECTOR rec[-12]\nDETECTOR rec[-1]");
    assert_eq!(out, expected);
}

#[test]
fn negative_and_positive_coordinates_order_correctly() {
    // Qubit coordinates -1.5, 0.25 and 3.0 canonicalize to 0, 1, 2 in
    // ascending numeric order; rows -2.0 and 4.5 are visited in order.
    let d = Diagram {
        vertices: vec![
            vertex(Role::ZSpider, 0.25, -2.0),
            vertex(Role::XSpider, 0.25, 4.5),
            vertex(Role::ZSpider, -1.5, -2.0),
            vertex(Role::XSpider, -1.5, 4.5),
            vertex(Role::ZSpider, 3.0, -2.0),
            vertex(Role::XSpider, 3.0, 4.5),
        ],
        edges: vec![(0, 1), (2, 3), (4, 5)],
    };
    let webs: Vec<Web> = vec![];
    let out = zx_to_stim(&d, &webs).unwrap();
    assert_eq!(out, "H 1\nH 0\nH 2\nTICK\nMR 1\nMR 0\nMR 2\nTICK");
}

#[test]
fn signed_zero_qubits_share_one_qubit() {
    // -0.0 and +0.0 are numerically equal: vertices carrying either map
    // to the same canonical qubit.
    let d = Diagram {
        vertices: vec![
            vertex(Role::ZSpider, -0.0, 0.0),
            vertex(Role::XSpider, -0.0, 1.0),
            vertex(Role::ZSpider, 0.0, 0.0),
            vertex(Role::XSpider, 0.0, 1.0),
        ],
        edges: vec![(0, 1), (2, 3)],
    };
    let webs: Vec<Web> = vec![];
    let out = zx_to_stim(&d, &webs).unwrap();
    assert_eq!(out, "H 0\nH 0\nTICK\nMR 0\nMR 0\nTICK");
}

#[test]
fn signed_zero_rows_are_one_row() {
    // A neighbor at row -0.0 is not earlier than a vertex at row +0.0:
    // the two times are numerically equal, so no measure-and-reset is
    // emitted, and the two vertices share a single row marker.
    let d = Diagram {
        vertices: vec![
            vertex(Role::ZSpider, 0.0, -0.0),
            vertex(Role::XSpider, 1.0, 0.0),
        ],
        edges: vec![(0, 1)],
    };
    let webs: Vec<Web> = vec![];
    let out = zx_to_stim(&d, &webs).unwrap();
    assert_eq!(out, "H 0\nTICK");
}
