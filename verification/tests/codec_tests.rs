use tsp_anneal::codec::{parse_edge_list, parse_full_table, render_edge_list};
use tsp_anneal::graph::GraphError;

#[test]
fn edge_list_reads_the_example() {
    let text = b"4\n1, 2, 5\n2, 3, 3\n3, 4, 7\n1, 4, 2\n".to_vec();
    let g = parse_edge_list(&text).unwrap();
    assert_eq!(g.number_of_vertex(), 4);
    assert_eq!(g.distance(1, 2), 5);
    assert_eq!(g.distance(2, 3), 3);
    assert_eq!(g.distance(3, 4), 7);
    assert_eq!(g.distance(4, 1), 2);
    assert_eq!(g.distance(1, 3), 0);
    assert_eq!(g.distance(2, 4), 0);
}

#[test]
fn edge_list_skips_lines_of_other_field_counts() {
    let text = b"3\njust a diagnostic line\n1, 2, 9\n\n2, 3\n".to_vec();
    let g = parse_edge_list(&text).unwrap();
    assert_eq!(g.distance(1, 2), 9);
    assert_eq!(g.distance(2, 3), 0);
}

#[test]
fn edge_list_reads_crlf_input() {
    let text = b"2\r\n1, 2, 8\r\n".to_vec();
    let g = parse_edge_list(&text).unwrap();
    assert_eq!(g.distance(1, 2), 8);
}

#[test]
fn edge_list_rejects_missing_header() {
    assert_eq!(parse_edge_list(&b"".to_vec()).unwrap_err(), GraphError::MissingHeader);
}

#[test]
fn edge_list_rejects_bad_header() {
    assert_eq!(parse_edge_list(&b"abc\n1, 2, 3\n".to_vec()).unwrap_err(), GraphError::BadHeader);
}

#[test]
fn edge_list_rejects_oversized_graph() {
    assert_eq!(parse_edge_list(&b"99999999\n".to_vec()).unwrap_err(), GraphError::GraphTooLarge);
}

#[test]
fn edge_list_rejects_bad_weight() {
    assert_eq!(
        parse_edge_list(&b"4\n1, 2, x\n".to_vec()).unwrap_err(),
        GraphError::BadNumber { line: 1 }
    );
    assert_eq!(
        parse_edge_list(&b"4\n1, 2, 5\n3, 4, 99999999999\n".to_vec()).unwrap_err(),
        GraphError::BadNumber { line: 2 }
    );
}

#[test]
fn edge_list_rejects_vertices_out_of_range() {
    assert_eq!(
        parse_edge_list(&b"4\n9, 2, 5\n".to_vec()).unwrap_err(),
        GraphError::VertexOutOfRange { line: 1 }
    );
}

#[test]
fn edge_list_rejects_self_loops() {
    assert_eq!(
        parse_edge_list(&b"4\n2, 2, 5\n".to_vec()).unwrap_err(),
        GraphError::SelfLoop { line: 1 }
    );
}

#[test]
fn saving_produces_lower_triangular_edge_list() {
    let text = b"4\n1, 2, 5\n2, 3, 3\n3, 4, 7\n1, 4, 2\n".to_vec();
    let g = parse_edge_list(&text).unwrap();
    let saved = render_edge_list(&g);
    assert_eq!(
        String::from_utf8(saved).unwrap(),
        "4\n2, 1, 5\n3, 2, 3\n4, 1, 2\n4, 3, 7\n"
    );
}

#[test]
fn save_then_read_keeps_every_distance() {
    let text = b"5\n1, 2, 5\n2, 3, 3\n3, 4, 7\n1, 4, 2\n4, 5, 4294967295\n".to_vec();
    let g = parse_edge_list(&text).unwrap();
    let saved = render_edge_list(&g);
    let h = parse_edge_list(&saved).unwrap();
    assert_eq!(h.number_of_vertex(), g.number_of_vertex());
    for a in 1..=5usize {
        for b in 1..=5usize {
            if g.connected((a, b)) {
                assert_eq!(g.distance(a, b), h.distance(a, b));
            }
            assert_eq!(g.distance(a, b), h.distance(a, b));
        }
    }
}

#[test]
fn full_table_reads_the_dense_shape() {
    let text = b"3\n0 2 3\n2 0 4\n3 4 0\n".to_vec();
    let g = parse_full_table(&text).unwrap();
    assert_eq!(g.number_of_vertex(), 3);
    assert_eq!(g.distance(1, 2), 2);
    assert_eq!(g.distance(1, 3), 3);
    assert_eq!(g.distance(2, 3), 4);
    assert_eq!(g.distance(3, 1), 3);
}

#[test]
fn full_table_accepts_ragged_spacing() {
    let text = b"2\n  0   7 \n 7  0\n".to_vec();
    let g = parse_full_table(&text).unwrap();
    assert_eq!(g.distance(1, 2), 7);
}

#[test]
fn full_table_rejects_asymmetry() {
    let text = b"2\n0 1\n2 0\n".to_vec();
    assert_eq!(parse_full_table(&text).unwrap_err(), GraphError::NotSymmetric { line: 1 });
}

#[test]
fn full_table_rejects_nonzero_diagonal() {
    let text = b"2\n5 1\n1 0\n".to_vec();
    assert_eq!(parse_full_table(&text).unwrap_err(), GraphError::SelfLoop { line: 1 });
}

#[test]
fn full_table_rejects_missing_rows_and_entries() {
    assert_eq!(
        parse_full_table(&b"2\n0 1\n".to_vec()).unwrap_err(),
        GraphError::MissingEntry { line: 2 }
    );
    assert_eq!(
        parse_full_table(&b"2\n0\n1 0\n".to_vec()).unwrap_err(),
        GraphError::MissingEntry { line: 1 }
    );
}

#[test]
fn full_table_rejects_bad_tokens() {
    assert_eq!(
        parse_full_table(&b"2\n0 z\nz 0\n".to_vec()).unwrap_err(),
        GraphError::BadNumber { line: 1 }
    );
    assert_eq!(parse_full_table(&b"".to_vec()).unwrap_err(), GraphError::MissingHeader);
    assert_eq!(parse_full_table(&b"\n".to_vec()).unwrap_err(), GraphError::BadHeader);
    assert_eq!(parse_full_table(&b" \n0\n".to_vec()).unwrap_err(), GraphError::BadHeader);
}
