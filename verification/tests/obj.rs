use raytracer::obj::parse_usize;
use raytracer::obj::{Face, FaceVertex, GroupPlan, ObjFileParser, TrianglePlan, VertexTokens};

fn parser_for(input: &str) -> ObjFileParser {
    ObjFileParser::new_input(input.as_bytes().to_vec())
}

/// Read a coordinate token the way the renderer does.
fn coord(token: &Vec<u8>) -> f64 {
    std::str::from_utf8(token)
        .unwrap_or("")
        .parse::<f64>()
        .unwrap_or(0.0)
}

fn coords(v: &VertexTokens) -> (f64, f64, f64) {
    (coord(&v.x), coord(&v.y), coord(&v.z))
}

fn root_plan(plan: GroupPlan) -> (Vec<(Vec<u8>, Vec<TrianglePlan>)>, Vec<TrianglePlan>) {
    match plan {
        GroupPlan::Root { groups, ungrouped } => (
            groups.into_iter().map(|g| (g.name, g.triangles)).collect(),
            ungrouped,
        ),
        GroupPlan::Single { .. } => panic!("expected a root plan"),
    }
}

#[test]
fn ignore_unrecognized_lines() {
    let input = "There was a young lady named Bright
who traveled much faster than light.
She set out one day
in a relative way,
and came back the previous night.";
    let mut parser = parser_for(input);
    parser.parse();
    assert_eq!(parser.lines_ignored(), 5);
}

#[test]
fn vertex_records() {
    let input = "
v -1 1 0
v -1.0000 0.5000 0.0000
v 1 0 0
v 1 1 0";

    let mut parser = parser_for(input);
    parser.parse();

    assert_eq!(parser.vertices().len(), 4);
    assert_eq!(coords(&parser.vertices()[0]), (-1.0, 1.0, 0.0));
    assert_eq!(coords(&parser.vertices()[1]), (-1.0, 0.5, 0.0));
    assert_eq!(coords(&parser.vertices()[2]), (1.0, 0.0, 0.0));
    assert_eq!(coords(&parser.vertices()[3]), (1.0, 1.0, 0.0));
}

#[test]
fn parsing_triangle_faces() {
    let input = "
v -1 1 0
v -1 0 0
v 1 0 0
v 1 1 0

f 1 2 3
f 1 3 4
";
    let mut parser = parser_for(input);

    let (groups, children) = root_plan(parser.build());
    assert!(groups.is_empty());
    assert_eq!(children.len(), 2);
    let t1 = &children[0];
    let t2 = &children[1];

    assert_eq!(coords(parser.get_vertex(t1.a.vertex)), coords(parser.get_vertex(1)));
    assert_eq!(coords(parser.get_vertex(t1.b.vertex)), coords(parser.get_vertex(2)));
    assert_eq!(coords(parser.get_vertex(t1.c.vertex)), coords(parser.get_vertex(3)));

    assert_eq!(coords(parser.get_vertex(t2.a.vertex)), coords(parser.get_vertex(1)));
    assert_eq!(coords(parser.get_vertex(t2.b.vertex)), coords(parser.get_vertex(3)));
    assert_eq!(coords(parser.get_vertex(t2.c.vertex)), coords(parser.get_vertex(4)));
}

#[test]
fn triangulating_polygons() {
    let input = "
v -1 1 0
v -1 0 0
v 1 0 0
v 1 1 0
v 0 2 0

f 1 2 3 4 5
";
    let mut parser = parser_for(input);

    let (groups, children) = root_plan(parser.build());
    assert!(groups.is_empty());
    assert_eq!(children.len(), 3);
    let t1 = &children[0];
    let t2 = &children[1];
    let t3 = &children[2];

    assert_eq!((t1.a.vertex, t1.b.vertex, t1.c.vertex), (1, 2, 3));
    assert_eq!((t2.a.vertex, t2.b.vertex, t2.c.vertex), (1, 3, 4));
    assert_eq!((t3.a.vertex, t3.b.vertex, t3.c.vertex), (1, 4, 5));
}

#[test]
fn triangles_in_groups() {
    let input = "
v -1 1 0
v -1 0 0
v 1 0 0
v 1 1 0

g FirstGroup
f 1 2 3
g SecondGroup
f 1 3 4";
    let mut parser = parser_for(input);

    let (groups, ungrouped) = root_plan(parser.build());
    assert_eq!(groups.len(), 2);
    assert!(ungrouped.is_empty());
    assert_eq!(parser.vertices().len(), 4);

    let faces: &Vec<Face> = parser.faces();
    assert_eq!(faces[0].group, Some(b"FirstGroup".to_vec()));
    assert_eq!(
        faces[0].vertices,
        vec![
            FaceVertex { vertex: 1, normal: None },
            FaceVertex { vertex: 2, normal: None },
            FaceVertex { vertex: 3, normal: None },
        ]
    );

    assert_eq!(faces[1].group, Some(b"SecondGroup".to_vec()));
    assert_eq!(
        faces[1].vertices,
        vec![
            FaceVertex { vertex: 1, normal: None },
            FaceVertex { vertex: 3, normal: None },
            FaceVertex { vertex: 4, normal: None },
        ]
    );

    assert_eq!(groups[0].0, b"FirstGroup".to_vec());
    assert_eq!(groups[1].0, b"SecondGroup".to_vec());
}

#[test]
fn vertex_normal_records() {
    let input = "
vn 0 0 1
vn 0.707 0 -0.707
vn 1 2 3";
    let mut parser = parser_for(input);
    parser.parse();

    assert_eq!(parser.normals().len(), 3);
    assert_eq!(coords(&parser.normals()[0]), (0.0, 0.0, 1.0));
    assert_eq!(coords(&parser.normals()[1]), (0.707, 0.0, -0.707));
    assert_eq!(coords(&parser.normals()[2]), (1.0, 2.0, 3.0));
}

#[test]
fn faces_with_normals() {
    let input = "
v 0 1 0
v -1 0 0
v 1 0 0
vn -1 0 0
vn 1 0 0
vn 0 1 0
f 1//3 2//1 3//2
f 1/0/3 2/102/1 3/14/2";

    let mut parser = parser_for(input);
    let (_, children) = root_plan(parser.build());
    let t1 = &children[0];
    let t2 = &children[1];

    assert_eq!((t1.a.vertex, t1.b.vertex, t1.c.vertex), (1, 2, 3));
    assert_eq!(t1.a.normal, Some(3));
    assert_eq!(t1.b.normal, Some(1));
    assert_eq!(t1.c.normal, Some(2));

    assert_eq!(t1, t2);
}

#[test]
fn single_named_group_is_returned_alone() {
    let input = "
v 0 1 0
v -1 0 0
v 1 0 0
g OnlyGroup
f 1 2 3";
    let mut parser = parser_for(input);
    match parser.build() {
        GroupPlan::Single { name, triangles } => {
            assert_eq!(name, b"OnlyGroup".to_vec());
            assert_eq!(triangles.len(), 1);
        }
        GroupPlan::Root { .. } => panic!("expected the single named group"),
    }
}

#[test]
fn faces_of_one_group_accumulate() {
    let input = "
v 0 1 0
v -1 0 0
v 1 0 0
v 0 2 0
g G
f 1 2 3
g H
f 1 2 3
g G
f 1 3 4";
    let mut parser = parser_for(input);
    let (groups, _) = root_plan(parser.build());
    assert_eq!(groups.len(), 2);
    assert_eq!(groups[0].0, b"G".to_vec());
    assert_eq!(groups[0].1.len(), 2);
    assert_eq!(groups[1].0, b"H".to_vec());
    assert_eq!(groups[1].1.len(), 1);
}

#[test]
fn short_records_count_as_ignored() {
    let input = "v 1 2\nvn 1\nf 1 2\nx y z\n\nv 1 2 3";
    let mut parser = parser_for(input);
    parser.parse();
    assert_eq!(parser.lines_ignored(), 5);
    assert_eq!(parser.vertices().len(), 1);
    assert_eq!(parser.normals().len(), 0);
    assert_eq!(parser.faces().len(), 0);
}

#[test]
fn malformed_indices_read_as_zero_or_absent() {
    let input = "v 0 1 0\nv -1 0 0\nv 1 0 0\nf abc 2/x/y 3//12";
    let mut parser = parser_for(input);
    parser.parse();
    let face = &parser.faces()[0];
    assert_eq!(face.vertices[0], FaceVertex { vertex: 0, normal: None });
    assert_eq!(face.vertices[1], FaceVertex { vertex: 2, normal: None });
    assert_eq!(face.vertices[2], FaceVertex { vertex: 3, normal: Some(12) });
}

#[test]
fn face_references_clamp_into_range() {
    let input = "v 1 0 0\nv 2 0 0\nv 3 0 0";
    let mut parser = parser_for(input);
    parser.parse();
    assert_eq!(coords(parser.get_vertex(0)), (1.0, 0.0, 0.0));
    assert_eq!(coords(parser.get_vertex(1)), (1.0, 0.0, 0.0));
    assert_eq!(coords(parser.get_vertex(3)), (3.0, 0.0, 0.0));
    assert_eq!(coords(parser.get_vertex(99)), (3.0, 0.0, 0.0));
}

#[test]
fn plus_signs_and_overflow_follow_std_parsing() {
    assert_eq!(parse_usize(&b"12".to_vec()), Some(12));
    assert_eq!(parse_usize(&b"+12".to_vec()), Some(12));
    assert_eq!(parse_usize(&b"007".to_vec()), Some(7));
    assert_eq!(parse_usize(&b"".to_vec()), None);
    assert_eq!(parse_usize(&b"+".to_vec()), None);
    assert_eq!(parse_usize(&b"1a".to_vec()), None);
    assert_eq!(parse_usize(&b"-3".to_vec()), None);
    assert_eq!(
        parse_usize(&b"99999999999999999999999999999999".to_vec()),
        None
    );
    assert_eq!(
        parse_usize(&usize::MAX.to_string().into_bytes()),
        Some(usize::MAX)
    );
}

#[test]
fn crlf_lines_parse_like_lf_lines() {
    let input = "v 1 2 3\r\nv 4 5 6\r\n";
    let mut parser = parser_for(input);
    parser.parse();
    assert_eq!(parser.lines_ignored(), 0);
    assert_eq!(parser.vertices().len(), 2);
    assert_eq!(coords(&parser.vertices()[1]), (4.0, 5.0, 6.0));
}
