use graphics::stl::{parse_stl_ascii_layout, stl_triangles, StlError, StlRecord};

fn word(text: &str, r: (usize, usize)) -> String {
    text.chars().skip(r.0).take(r.1 - r.0).collect()
}

fn words(text: &str, rec: &StlRecord) -> Vec<String> {
    match rec {
        StlRecord::Normal(a, b, c) | StlRecord::Vertex(a, b, c) => vec![word(text, *a), word(text, *b), word(text, *c)],
    }
}

#[test]
fn facet_lines_are_reported_in_order() {
    let text = "solid t\n  facet normal 0 0 1\n    outer loop\n      vertex 0 0 0\n      vertex 1 0 0\n      vertex 0 1 0\n    endloop\n  endfacet\nendsolid t\n";
    let (records, err) = parse_stl_ascii_layout(text);
    assert_eq!(err, None);
    assert_eq!(records.len(), 4);
    assert!(matches!(records[0], StlRecord::Normal(..)));
    assert_eq!(words(text, &records[0]), vec!["0", "0", "1"]);
    assert!(matches!(records[2], StlRecord::Vertex(..)));
    assert_eq!(words(text, &records[2]), vec!["1", "0", "0"]);
}

#[test]
fn short_normal_line_is_bad() {
    let (records, err) = parse_stl_ascii_layout("vertex 1 2 3\nfacet normal 1 2\n");
    assert_eq!(err, Some(StlError::BadNormal));
    assert_eq!(records.len(), 1);
    assert_eq!(StlError::BadNormal.message(), "Bad Normal");
}

#[test]
fn short_vertex_line_is_bad() {
    let (records, err) = parse_stl_ascii_layout("vertex 1\n");
    assert_eq!(err, Some(StlError::BadVertex));
    assert!(records.is_empty());
    assert_eq!(StlError::BadVertex.message(), "Bad Vertex");
}

#[test]
fn prefix_is_matched_exactly() {
    let text = "vertexes 1 2 3\nfacet  normal 1 2 3\nVERTEX 1 2 3\n";
    let (records, err) = parse_stl_ascii_layout(text);
    assert_eq!(err, None);
    assert_eq!(records.len(), 1);
    assert_eq!(words(text, &records[0]), vec!["es", "1", "2"]);
}

#[test]
fn every_three_vertices_make_a_triangle() {
    let text = "facet normal 0 0 1\nvertex 0 0 0\nfacet normal 1 0 0\nvertex 1 0 0\nvertex 0 1 0\nvertex 5 5 5\nfacet normal 0 1 0\nvertex 6 6 6\nvertex 7 7 7\nvertex 8 8 8\n";
    let (records, err) = parse_stl_ascii_layout(text);
    assert_eq!(err, None);
    assert_eq!(records.len(), 10);
    assert_eq!(stl_triangles(&records), vec![(1, 3, 4, 0), (5, 7, 8, 5)]);
}
