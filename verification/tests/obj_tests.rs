use graphics::obj::{parse_obj_layout, ObjError, ObjRecord};

fn word(text: &str, r: (usize, usize)) -> String {
    text.chars().skip(r.0).take(r.1 - r.0).collect()
}

fn coords(text: &str, rec: &ObjRecord) -> Vec<String> {
    match rec {
        ObjRecord::Vertex(a, b, c) | ObjRecord::Normal(a, b, c) => vec![word(text, *a), word(text, *b), word(text, *c)],
        ObjRecord::Triangle { .. } => Vec::new(),
    }
}

#[test]
fn single_triangle() {
    let text = "v 0 0 0\nv 1 0 0\nv 0 1 0\nf 1 2 3\n";
    let l = parse_obj_layout(text);
    assert_eq!(l.error, None);
    assert_eq!(l.records.len(), 4);
    assert_eq!(coords(text, &l.records[1]), vec!["1", "0", "0"]);
    assert_eq!(l.records[3], ObjRecord::Triangle { verts: (0, 1, 2), normals: None });
}

#[test]
fn quads_become_fans() {
    let text = "v 0 0 0\nv 1 0 0\nv 1 1 0\nv 0 1 0\nf 1 2 3 4";
    let l = parse_obj_layout(text);
    assert_eq!(l.error, None);
    assert_eq!(
        l.records[4..].to_vec(),
        vec![
            ObjRecord::Triangle { verts: (0, 1, 2), normals: None },
            ObjRecord::Triangle { verts: (0, 2, 3), normals: None },
        ]
    );
}

#[test]
fn comments_blank_lines_and_unknown_lines_are_skipped() {
    let text = "# a comment\n\n   \t\nvt 0.5 0.5\no name\r\nv 1 2 3 extra\r\n";
    let l = parse_obj_layout(text);
    assert_eq!(l.error, None);
    assert_eq!(l.records.len(), 1);
    assert_eq!(coords(text, &l.records[0]), vec!["1", "2", "3"]);
}

#[test]
fn normals_are_used_when_all_three_are_given() {
    let text = "v 0 0 0\nv 1 0 0\nv 0 1 0\nvn 0 0 1\nf 1//1 2//1 3//1\nf 1/1 2/1 3/1\n";
    let l = parse_obj_layout(text);
    assert_eq!(l.error, None);
    assert_eq!(coords(text, &l.records[3]), vec!["0", "0", "1"]);
    assert!(matches!(l.records[3], ObjRecord::Normal(..)));
    assert_eq!(l.records[4], ObjRecord::Triangle { verts: (0, 1, 2), normals: Some((0, 0, 0)) });
    assert_eq!(l.records[5], ObjRecord::Triangle { verts: (0, 1, 2), normals: None });
}

#[test]
fn unreadable_face_words_are_left_out() {
    let text = "v 0 0 0\nv 1 0 0\nv 0 1 0\nf 1 x 0 -1 2 +3\n";
    let l = parse_obj_layout(text);
    assert_eq!(l.error, None);
    assert_eq!(l.records[3], ObjRecord::Triangle { verts: (0, 1, 2), normals: None });
}

#[test]
fn vertex_line_without_three_numbers() {
    let l = parse_obj_layout("v 1 2\n");
    assert_eq!(l.error, Some(ObjError::MissingFloat));
    assert!(l.records.is_empty());
    assert_eq!(ObjError::MissingFloat.message(), "Unable to get float from line");
}

#[test]
fn face_with_two_vertices() {
    let l = parse_obj_layout("v 0 0 0\nv 1 0 0\nf 1 2\n");
    assert_eq!(l.error, Some(ObjError::TooFewVertices));
    assert_eq!(l.records.len(), 2);
    assert_eq!(ObjError::TooFewVertices.message(), "Triangle has less than 3 vertices");
}

#[test]
fn face_naming_a_later_vertex() {
    let l = parse_obj_layout("v 0 0 0\nv 1 0 0\nf 1 2 3\nv 0 1 0\n");
    assert_eq!(l.error, Some(ObjError::VertexOutOfRange));
    assert_eq!(ObjError::VertexOutOfRange.message(), "vertex index out of range");
}

#[test]
fn face_naming_a_missing_normal() {
    let l = parse_obj_layout("v 0 0 0\nv 1 0 0\nv 0 1 0\nf 1//1 2//1 3//1\n");
    assert_eq!(l.error, Some(ObjError::NormalOutOfRange));
    assert_eq!(ObjError::NormalOutOfRange.message(), "normal index out of range");
}

#[test]
fn records_before_an_error_are_kept() {
    let text = "v 0 0 0\nv 1 0 0\nv 0 1 0\nv 1 1 0\nf 1 2 3 4 9\n";
    let l = parse_obj_layout(text);
    assert_eq!(l.error, Some(ObjError::VertexOutOfRange));
    assert_eq!(l.records.len(), 6);
    assert_eq!(l.records[5], ObjRecord::Triangle { verts: (0, 2, 3), normals: None });
}

#[test]
fn empty_text_has_no_records() {
    let l = parse_obj_layout("");
    assert_eq!(l.error, None);
    assert!(l.records.is_empty());
}

#[test]
fn triangles_name_only_earlier_vertices_and_normals() {
    let text = "v 0 0 0\nvn 0 0 1\nv 1 0 0\nf 1//1 2//1 2//1\nv 0 1 0\nv 1 1 0\nvn 1 0 0\nf 4 3 2 1\nf 1//2 3//1 4//2\n";
    let l = parse_obj_layout(text);
    assert_eq!(l.error, None);
    let (mut vc, mut nc) = (0usize, 0usize);
    let mut triangles = 0;
    for r in &l.records {
        match r {
            ObjRecord::Vertex(..) => vc += 1,
            ObjRecord::Normal(..) => nc += 1,
            ObjRecord::Triangle { verts, normals } => {
                triangles += 1;
                assert!(verts.0 < vc && verts.1 < vc && verts.2 < vc);
                if let Some(n) = normals {
                    assert!(n.0 < nc && n.1 < nc && n.2 < nc);
                }
            }
        }
    }
    assert_eq!(triangles, 4);
}
