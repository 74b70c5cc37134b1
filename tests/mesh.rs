use openfoamparser::{build_topology, parse_boundary, parse_vals_from_brackets, FoamError, FoamMesh};

fn point3(s: &str) -> Option<[f64; 3]> {
    let v = parse_vals_from_brackets(s, |t: &str| t.parse::<f64>().ok())?;
    if v.len() != 3 {
        return None;
    }
    Some([v[0], v[1], v[2]])
}

fn header() -> String {
    let mut h = String::new();
    for i in 0..10 {
        h.push_str(&format!("// header line {}\n", i));
    }
    h
}

/// A row of `n` cells: face `i < n - 1` joins cell `i` to cell `i + 1`;
/// then come the walls, one face per cell, and the two end faces.
struct Row {
    boundary: String,
    faces: String,
    owner: String,
    neighbour: String,
    points: String,
}

fn row(n: usize) -> Row {
    let inner = n - 1;
    let total = inner + n + 2;
    let boundary = format!(
        "{}\n2\n(\n    walls\n    {{\n        type            wall;\n        nFaces          {};\n        startFace       {};\n    }}\n    ends\n    {{\n        type            patch;\n        nFaces          2;\n        startFace       {};\n    }}\n)\n",
        header(),
        n,
        inner,
        inner + n
    );
    let mut faces = format!("{}\n{}\n(\n", header(), total);
    for i in 0..total {
        faces.push_str(&format!("4({} {} {} {})\n", i, i + 1, i + 2, i + 3));
    }
    faces.push_str(")\n");
    let mut owner = format!("{}\n{}\n(\n", header(), total);
    for i in 0..inner {
        owner.push_str(&format!("{}\n", i));
    }
    for i in 0..n {
        owner.push_str(&format!("{}\n", i));
    }
    owner.push_str(&format!("0\n{}\n)\n", n - 1));
    let mut neighbour = format!("{}\n{}\n(\n", header(), inner);
    for i in 0..inner {
        neighbour.push_str(&format!("{}\n", i + 1));
    }
    neighbour.push_str(")\n");
    let points = format!("{}\n4\n(\n(0 0 0)\n(1 0 0)\n(1 1 0)\n(0 1 0)\n)\n", header());
    Row { boundary, faces, owner, neighbour, points }
}

fn mesh(n: usize) -> FoamMesh<[f64; 3]> {
    let r = row(n);
    FoamMesh::new(&r.boundary, &r.faces, &r.owner, &r.neighbour, &r.points, 10, point3).unwrap()
}

#[test]
fn test_new_mesh() {
    let mut m = mesh(3200);
    let mut centers = String::from("FoamFile\n{\n}\ninternalField   nonuniform List<vector>\n3200\n(\n");
    for i in 0..3200 {
        if i == 3199 {
            centers.push_str("(0.09875 0.09875 0.0075)\n");
        } else {
            centers.push_str(&format!("({} 0.0025 0.0075)\n", i as f64 * 1e-5));
        }
    }
    centers.push_str(")\n;\n");
    match m.read_cell_centers(&centers, point3) {
        Err(e) => panic!("{:?}", e),
        Ok(_) => {}
    }
    let c = m.cell_centers.unwrap()[3199];
    assert!((c[0] - 0.09875).abs() < 1e-12);
    assert!((c[1] - 0.09875).abs() < 1e-12);
    assert!((c[2] - 0.0075).abs() < 1e-12);
}

#[test]
fn row_mesh_counts() {
    let m = mesh(4);
    assert_eq!(m.num_cells(), 4);
    assert_eq!(m.num_inner_faces(), 3);
    assert_eq!(m.neighbors, vec![1, 2, 3, -10, -10, -10, -10, -11, -11]);
    assert_eq!(m.points.len(), 4);
}

#[test]
fn adjacency_is_symmetric() {
    let m = mesh(4);
    for c in 0..m.cell_faces.len() {
        assert_eq!(m.cell_faces[c].len(), m.cell_neighbors[c].len());
    }
    assert_eq!(m.cell_faces[1], vec![1, 4, 0]);
    assert_eq!(m.cell_neighbors[1], vec![0, 2, -10]);
    for f in 0..m.num_inner_faces() {
        let o = m.owners[f];
        let n = m.neighbors[f];
        assert!(m.cell_neighbors[o].contains(&n));
        assert!(m.cell_neighbors[n as usize].contains(&(o as i64)));
    }
    assert_eq!(m.cell_neighbor_cells(0), Some(&vec![1, -10, -11]));
    assert_eq!(m.cell_neighbor_cells(4), None);
}

#[test]
fn face_boundary_membership() {
    let m = mesh(4);
    for f in 0..9 {
        assert_eq!(m.is_face_on_boundary(f, None), f >= 3);
    }
    assert!(m.is_face_on_boundary(7, Some(String::from("ends"))));
    assert!(!m.is_face_on_boundary(6, Some(String::from("ends"))));
    assert!(!m.is_face_on_boundary(7, Some(String::from("nowhere"))));
    assert!(!m.is_face_on_boundary(9, None));
}

#[test]
fn cell_boundary_membership() {
    let m = mesh(4);
    assert!(m.is_cell_on_boundary(0, None));
    assert!(m.is_cell_on_boundary(0, Some(String::from("ends"))));
    assert!(!m.is_cell_on_boundary(1, Some(String::from("ends"))));
    assert!(m.is_cell_on_boundary(3, Some(String::from("ends"))));
    assert!(!m.is_cell_on_boundary(1, Some(String::from("nowhere"))));
    assert!(!m.is_cell_on_boundary(4, None));
}

#[test]
fn boundary_cells_follow_face_order() {
    let m = mesh(4);
    assert_eq!(m.boundary_cells("walls"), vec![0, 1, 2, 3]);
    assert_eq!(m.boundary_cells("ends"), vec![0, 3]);
    assert_eq!(m.boundary_cells("nowhere"), Vec::<usize>::new());
}

#[test]
fn topology_errors() {
    let b = parse_boundary("1\n(\nw\n{\n type wall;\n nFaces 5;\n startFace 1;\n}\n)\n", 0).unwrap();
    assert_eq!(build_topology(&vec![], vec![], &b).err(), Some(FoamError::EmptyMesh));
    assert_eq!(
        build_topology(&vec![0], vec![1, 2], &b).err(),
        Some(FoamError::NeighborsExceedFaces)
    );
    assert_eq!(
        build_topology(&vec![0, 0, 1], vec![1], &b).err(),
        Some(FoamError::PatchOutOfRange)
    );
    let t = build_topology(&vec![0, 0, 1, 1, 1, 1], vec![1], &b).unwrap();
    assert_eq!(t.num_cells, 2);
    assert_eq!(t.neighbors, vec![1, -10, -10, -10, -10, -10]);
}

#[test]
fn mesh_points_are_checked() {
    let r = row(3);
    let short = format!("{}\n4\n(\n(0 0 0)\n(1 0 0)\n)\n", header());
    let e = FoamMesh::new(&r.boundary, &r.faces, &r.owner, &r.neighbour, &short, 10, point3).err();
    assert_eq!(e, Some(FoamError::CountMismatch { expected: 4, found: 2 }));
    let bad = format!("{}\n2\n(\n(0 0 0)\n(1 0)\n)\n", header());
    let e = FoamMesh::new(&r.boundary, &r.faces, &r.owner, &r.neighbour, &bad, 10, point3).err();
    assert_eq!(e, Some(FoamError::MalformedPoint { line: 14 }));
    let none = format!("{}\n)\n", header());
    let m = FoamMesh::new(&r.boundary, &r.faces, &r.owner, &r.neighbour, &none, 10, point3).unwrap();
    assert!(m.points.is_empty());
}
