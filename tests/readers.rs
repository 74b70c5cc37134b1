use openfoamparser::{
    parse_boundary, parse_faces, parse_i64, parse_internal_field,
    parse_internal_field_data_nonuniform, parse_points, parse_scalars, parse_signed_scalars,
    parse_usize, parse_vals_from_brackets, FoamError,
};

const HEADER: &str = "/*--------------------------------*- C++ -*----------------------------------*\\\n  =========                 |\n  \\\\      /  F ield         | OpenFOAM\n   \\\\    /   O peration     |\n    \\\\  /    A nd           |\n     \\\\/     M anipulation  |\n\\*---------------------------------------------------------------------------*/\nFoamFile\n{\n}\n";

fn with_header(rest: &str) -> String {
    format!("{}{}", HEADER, rest)
}

fn point3(s: &str) -> Option<[f64; 3]> {
    let v = parse_vals_from_brackets(s, |t: &str| t.parse::<f64>().ok())?;
    if v.len() != 3 {
        return None;
    }
    Some([v[0], v[1], v[2]])
}

fn close(a: [f64; 3], b: [f64; 3]) -> bool {
    (0..3).all(|i| (a[i] - b[i]).abs() <= 1e-12 * (1.0 + b[i].abs()))
}

fn cavity_boundary() -> String {
    with_header(
        "\n3\n(\n    movingWall\n    {\n        type            wall;\n        inGroups        List<word> 1(wall);\n        nFaces          20;\n        startFace       7900;\n    }\n    fixedWalls\n    {\n        type            wall;\n        inGroups        List<word> 1(wall);\n        nFaces          240;\n        startFace       7920;\n    }\n    frontAndBack\n    {\n        type            empty;\n        inGroups        List<word> 1(empty);\n        nFaces          6400;\n        startFace       8160;\n    }\n)\n\n// ************************************************************************* //\n",
    )
}

#[test]
fn test_parse_boundary() {
    let boundaries = parse_boundary(&cavity_boundary(), 10).unwrap();
    let bd_fixed_wall = boundaries.get("fixedWalls").unwrap();
    assert_eq!(bd_fixed_wall.boundary_type, "wall");
    assert_eq!(bd_fixed_wall.num_faces, 240);
    assert_eq!(bd_fixed_wall.start_face, 7920);
}

#[test]
fn test_parse_points() {
    let mut body = String::from("\n5043\n(\n(0 0 0)\n");
    for i in 1..5042 {
        body.push_str(&format!("({} 0.005 0)\n", i as f64 * 1e-5));
    }
    body.push_str("(0.1 0.1 0.01)\n)\n");
    let points = parse_points(&with_header(&body), 10, point3).unwrap();
    assert!(close(points[0], [0.0, 0.0, 0.0]));
    assert!(close(points[5042], [0.1, 0.1, 0.01]));
}

#[test]
fn test_parse_faces() {
    let faces = parse_faces(&with_header("\n2\n(\n4(1 42 1723 1682)\n4(2 43 1724 1683)\n)\n"), 10)
        .unwrap();
    assert_eq!(faces[0], vec![1, 42, 1723, 1682]);
}

#[test]
fn test_parse_scalars() {
    let mut body = String::from("\n11360\n(\n");
    for i in 0..11360usize {
        body.push_str(&format!("{}\n", i * 3199 / 11359));
    }
    body.push_str(")\n");
    let owners: Vec<usize> = parse_scalars(&with_header(&body), 10).unwrap();
    assert_eq!(owners[0], 0);
    assert_eq!(owners[11359], 3199);
}

#[test]
fn face_winding_is_kept() {
    let faces = parse_faces("1\n(\n4(1 42 1723 1682)\n)\n", 0).unwrap();
    assert_eq!(faces, vec![vec![1, 42, 1723, 1682]]);
}

#[test]
fn faces_with_bad_vertex_count_fail() {
    let r = parse_faces("\n2\n(\n3(1 2 3)\n4(1 2 3)\n)\n", 0);
    assert_eq!(r, Err(FoamError::FaceVertexMismatch { line: 4 }));
}

#[test]
fn faces_count_mismatch() {
    let r = parse_faces("\n3\n(\n3(1 2 3)\n3(4 5 6)\n)\n", 0);
    assert_eq!(r, Err(FoamError::CountMismatch { expected: 3, found: 2 }));
}

#[test]
fn scalars_skip_comments_and_count() {
    let v = parse_scalars("// note\n3\n(\n7\n// comment\n8\n9\n)\n", 0).unwrap();
    assert_eq!(v, vec![7, 8, 9]);
    let r = parse_scalars("3\n(\n7\n8\n)\n", 0);
    assert_eq!(r, Err(FoamError::CountMismatch { expected: 3, found: 2 }));
}

#[test]
fn signed_scalars_read_negatives() {
    let v = parse_signed_scalars("2\n(\n-4\n+5\n)\n", 0).unwrap();
    assert_eq!(v, vec![-4, 5]);
}

#[test]
fn empty_list_without_count() {
    let v = parse_scalars("no count here\n", 0).unwrap();
    assert!(v.is_empty());
}

#[test]
fn points_count_mismatch() {
    let r = parse_points("3\n(\n(0 0 0)\n(1 1 1)\n)\n", 0, point3);
    assert_eq!(r, Err(FoamError::CountMismatch { expected: 3, found: 2 }));
}

#[test]
fn first_refused_point_beats_count() {
    let r = parse_points("5\n(\n(0 0 0)\n(1 2)\n(a b c)\n)\n", 0, point3);
    assert_eq!(r, Err(FoamError::MalformedPoint { line: 3 }));
}

#[test]
fn boundary_values_after_tabs() {
    let b = parse_boundary("1\n(\nleft\n{\n\ttype\twall;\n\tnFaces\t4;\n\tstartFace\t2;\n}\n)\n", 0)
        .unwrap();
    assert_eq!(b.get("left").unwrap().num_faces, 4);
    assert_eq!(b.get("left").unwrap().boundary_type, "wall");
}

#[test]
fn nonuniform_past_the_end() {
    let content: Vec<Vec<char>> = vec!["internalField nonuniform".chars().collect()];
    assert_eq!(
        parse_internal_field_data_nonuniform(&content, 5, scalar),
        Err(FoamError::MissingFieldCount)
    );
    assert_eq!(
        parse_internal_field_data_nonuniform(&content, 0, scalar),
        Err(FoamError::MissingFieldCount)
    );
}

#[test]
fn malformed_point_line_fails() {
    let r = parse_points("2\n(\n(0 0 0)\n(1 x 1)\n)\n", 0, point3);
    assert_eq!(r, Err(FoamError::MalformedPoint { line: 3 }));
}

#[test]
fn integer_tokens() {
    assert_eq!(parse_usize("+12"), Some(12));
    assert_eq!(parse_usize("-1"), None);
    assert_eq!(parse_usize("18446744073709551615"), Some(usize::MAX));
    assert_eq!(parse_usize("18446744073709551616"), None);
    assert_eq!(parse_usize(""), None);
    assert_eq!(parse_i64("-9223372036854775808"), Some(i64::MIN));
    assert_eq!(parse_i64("9223372036854775808"), None);
    assert_eq!(parse_i64("12a"), None);
}

#[test]
fn boundary_ids_count_down_from_minus_ten() {
    let b = parse_boundary(&cavity_boundary(), 10).unwrap();
    assert_eq!(b.len(), 3);
    assert_eq!(b.get("movingWall").unwrap().boundary_id, -10);
    assert_eq!(b.get("fixedWalls").unwrap().boundary_id, -11);
    assert_eq!(b.get("frontAndBack").unwrap().boundary_id, -12);
    assert_eq!(b.get("frontAndBack").unwrap().boundary_type, "empty");
    assert!(b.get("inlet").is_none());
}

#[test]
fn boundary_tolerates_one_blank_line() {
    let text = "2\n\n(\nleft\n\n{\n type patch;\n nFaces 1;\n startFace 0;\n}\n)\n";
    let b = parse_boundary(text, 0).unwrap();
    assert_eq!(b.get("left").unwrap().num_faces, 1);
    assert_eq!(b.get("left").unwrap().boundary_type, "patch");
}

#[test]
fn boundary_errors() {
    assert_eq!(
        parse_boundary("1\nleft\n", 0).err(),
        Some(FoamError::MissingOpenParen)
    );
    assert_eq!(
        parse_boundary("1\n(\nleft\n\n\n{\n}\n)\n", 0).err(),
        Some(FoamError::MissingOpenBrace)
    );
    assert_eq!(
        parse_boundary("1\n(\nleft\n{\n type patch;\n", 0).err(),
        Some(FoamError::UnexpectedEnd)
    );
    assert_eq!(
        parse_boundary("1\n(\nleft\n{\n nFaces 3\n}\n)\n", 0).err(),
        Some(FoamError::MalformedKeyValue { line: 4 })
    );
    assert_eq!(
        parse_boundary("1\n(\nleft\n{\n nFaces x;\n}\n)\n", 0).err(),
        Some(FoamError::MalformedValue { line: 4 })
    );
}

fn scalar(s: &str) -> Option<i64> {
    parse_i64(s)
}

#[test]
fn uniform_and_nonuniform_agree() {
    let u = parse_internal_field("dimensions [0 1 -1 0 0 0 0];\ninternalField   uniform (1 2 3);\n", point3)
        .unwrap();
    let n = parse_internal_field(
        "internalField   nonuniform List<vector>\n1\n(\n(1 2 3)\n)\n;\n",
        point3,
    )
    .unwrap();
    assert_eq!(u.len(), 1);
    assert!(close(u[0], [1.0, 2.0, 3.0]));
    assert_eq!(u, n);
}

#[test]
fn uniform_value_is_decoded_once() {
    let u = parse_internal_field("internalField   uniform (1 2 3);\n", scalar).unwrap();
    assert!(u.is_empty());
    let v = parse_internal_field("internalField   uniform (7) ;\n", |s: &str| {
        parse_vals_from_brackets(s, scalar)
    })
    .unwrap();
    assert_eq!(v, vec![vec![7]]);
}

#[test]
fn internal_field_of_points() {
    let text = "internalField   nonuniform List<vector>\n2\n(\n(0.1 0.2 0.3)\n(1 2 3)\n)\n;\n";
    let v = parse_internal_field(text, point3).unwrap();
    assert_eq!(v.len(), 2);
    assert!(close(v[1], [1.0, 2.0, 3.0]));
}

#[test]
fn internal_field_errors() {
    assert_eq!(parse_internal_field("nothing\n", scalar), Err(FoamError::FieldNotFound));
    assert_eq!(
        parse_internal_field("internalField 3;\n", scalar),
        Err(FoamError::FieldKindMissing)
    );
    assert_eq!(
        parse_internal_field("internalField uniform 3;\n", scalar),
        Err(FoamError::MalformedUniform)
    );
    assert_eq!(
        parse_internal_field("internalField nonuniform List<scalar>\nx\n", scalar),
        Err(FoamError::MissingFieldCount)
    );
    assert_eq!(
        parse_internal_field("internalField nonuniform List<scalar>\n5\n(\n1\n)\n", scalar),
        Err(FoamError::FieldTooShort)
    );
    assert_eq!(
        parse_internal_field("internalField nonuniform List<scalar>\n2\n(\n1\nx\n)\n", scalar),
        Err(FoamError::CountMismatch { expected: 2, found: 1 })
    );
}

#[test]
fn brackets_strip_and_split() {
    assert_eq!(parse_vals_from_brackets("(1 2 3)", scalar), Some(vec![1, 2, 3]));
    assert_eq!(parse_vals_from_brackets("1 2 3)", scalar), None);
    assert_eq!(parse_vals_from_brackets("(1 x 3)", scalar), Some(vec![1, 3]));
    assert_eq!(parse_vals_from_brackets("(1\t2  3)", scalar), Some(vec![1, 2, 3]));
}
