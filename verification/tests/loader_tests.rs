use spatialgraph::graph::WBDGraph;
use spatialgraph::loader::LoadErr;

const HEADER: &str = "views,mature,life_time,created_at,updated_at,numeric_id,dead_account,language,affiliate\n";

fn node_table(rows: &[&str]) -> Vec<u8> {
    let mut t = String::from(HEADER);
    for r in rows {
        t.push_str(r);
        t.push('\n');
    }
    t.into_bytes()
}

fn edge_table(rows: &[&str]) -> Vec<u8> {
    let mut t = String::new();
    for r in rows {
        t.push_str(r);
        t.push('\n');
    }
    t.into_bytes()
}

#[test]
fn loads_simple_graph() {
    let nodes = node_table(&[
        "0,f,0,c,u,0,f,EN,f",
        "3,f,4,c,u,1,f,EN,f",
    ]);
    let edges = edge_table(&["0,1"]);
    let g = WBDGraph::import_twitch_csv(&nodes, &edges).unwrap();
    assert_eq!(g.points().len(), 2);
    assert_eq!(g.points()[0].neighbors(), &vec![1]);
    assert_eq!(g.points()[1].neighbors(), &vec![0]);
    // distance between (0,0) and (3,4) is 5, on both aligned entries
    assert_eq!(g.points()[0].weights(), &vec![5]);
    assert_eq!(g.points()[1].weights(), &vec![5]);
}

#[test]
fn neighbor_and_weight_lists_stay_aligned() {
    let nodes = node_table(&[
        "0,f,0,c,u,0,f,EN,f",
        "1,f,1,c,u,1,f,EN,f",
        "5,f,5,c,u,2,f,EN,f",
    ]);
    let edges = edge_table(&["0,1", "0,2", "1,2", "0,0"]);
    let g = WBDGraph::import_twitch_csv(&nodes, &edges).unwrap();
    for p in g.points() {
        assert_eq!(p.neighbors().len(), p.weights().len());
    }
    // the self-loop contributed two aligned entries on vertex 0
    assert_eq!(g.points()[0].neighbors().len(), 4);
}

#[test]
fn skipped_dense_id_is_misaligned() {
    let nodes = node_table(&[
        "0,f,0,c,u,0,f,EN,f",
        "1,f,1,c,u,1,f,EN,f",
        "2,f,2,c,u,3,f,EN,f",
    ]);
    let edges = edge_table(&[]);
    let r = WBDGraph::import_twitch_csv(&nodes, &edges);
    assert_eq!(r.unwrap_err(), LoadErr::MisalignedId);
}

#[test]
fn short_node_row_is_malformed() {
    let nodes = node_table(&["0,f,0"]);
    let edges = edge_table(&[]);
    let r = WBDGraph::import_twitch_csv(&nodes, &edges);
    assert_eq!(r.unwrap_err(), LoadErr::MalformedRow);
}

#[test]
fn non_numeric_id_is_parse_failure() {
    let nodes = node_table(&["0,f,0,c,u,zero,f,EN,f"]);
    let edges = edge_table(&[]);
    let r = WBDGraph::import_twitch_csv(&nodes, &edges);
    assert_eq!(r.unwrap_err(), LoadErr::NumericParseFailure);
}

#[test]
fn non_numeric_coordinate_is_parse_failure() {
    let nodes = node_table(&["1x,f,0,c,u,0,f,EN,f"]);
    let edges = edge_table(&[]);
    let r = WBDGraph::import_twitch_csv(&nodes, &edges);
    assert_eq!(r.unwrap_err(), LoadErr::NumericParseFailure);
}

#[test]
fn edge_out_of_range_is_invalid_index() {
    let nodes = node_table(&[
        "0,f,0,c,u,0,f,EN,f",
        "1,f,1,c,u,1,f,EN,f",
    ]);
    let edges = edge_table(&["0,5"]);
    let r = WBDGraph::import_twitch_csv(&nodes, &edges);
    assert_eq!(r.unwrap_err(), LoadErr::InvalidEdgeIndex);
}

#[test]
fn short_edge_row_is_malformed() {
    let nodes = node_table(&["0,f,0,c,u,0,f,EN,f"]);
    let edges = edge_table(&["7"]);
    let r = WBDGraph::import_twitch_csv(&nodes, &edges);
    assert_eq!(r.unwrap_err(), LoadErr::MalformedRow);
}

#[test]
fn non_numeric_edge_endpoint_is_parse_failure() {
    let nodes = node_table(&["0,f,0,c,u,0,f,EN,f"]);
    let edges = edge_table(&["0,x"]);
    let r = WBDGraph::import_twitch_csv(&nodes, &edges);
    assert_eq!(r.unwrap_err(), LoadErr::NumericParseFailure);
}

#[test]
fn header_only_table_gives_empty_graph() {
    let nodes = node_table(&[]);
    let edges = edge_table(&[]);
    let g = WBDGraph::import_twitch_csv(&nodes, &edges).unwrap();
    assert_eq!(g.points().len(), 0);
}

#[test]
fn crlf_line_endings_are_accepted() {
    let nodes = Vec::from(
        &b"h1,h2,h3,h4,h5,h6\r\n0,f,0,c,u,0,f,EN,f\r\n3,f,4,c,u,1,f,EN,f\r\n"[..],
    );
    let edges = Vec::from(&b"0,1\r\n"[..]);
    let g = WBDGraph::import_twitch_csv(&nodes, &edges).unwrap();
    assert_eq!(g.points().len(), 2);
    assert_eq!(g.points()[0].weights(), &vec![5]);
}

#[test]
fn misaligned_id_aborts_whole_load() {
    // even with a valid edge list, nothing is returned
    let nodes = node_table(&[
        "0,f,0,c,u,0,f,EN,f",
        "1,f,1,c,u,2,f,EN,f",
    ]);
    let edges = edge_table(&["0,1"]);
    assert!(WBDGraph::import_twitch_csv(&nodes, &edges).is_err());
}
