use spatialgraph::graph::{VisitTracker, WBDGraph};

const HEADER: &str = "views,mature,life_time,created_at,updated_at,numeric_id,dead_account,language,affiliate\n";

fn build(coords: &[(usize, usize)], edges: &[(usize, usize)]) -> WBDGraph {
    let mut nt = String::from(HEADER);
    for (i, (x, y)) in coords.iter().enumerate() {
        nt.push_str(&format!("{},f,{},c,u,{},f,EN,f\n", x, y, i));
    }
    let mut et = String::new();
    for (s, d) in edges {
        et.push_str(&format!("{},{}\n", s, d));
    }
    WBDGraph::import_twitch_csv(&nt.into_bytes(), &et.into_bytes()).unwrap()
}

/// Vertices 0,1,2,3 with edges (0-1) weight 5, (1-2) weight 0, (2-3)
/// weight 5; with a budget of 5 from vertex 0 the search explores {0,1,2}
/// and keeps vertex 0 (degree 1).
#[test]
fn budget_five_scenario() {
    let g = build(
        &[(0, 0), (0, 5), (0, 5), (0, 10)],
        &[(0, 1), (1, 2), (2, 3)],
    );
    assert_eq!(g.points()[0].neighbors().len(), 1);
    assert_eq!(g.points()[1].neighbors().len(), 2);
    assert_eq!(g.points()[2].neighbors().len(), 2);
    assert_eq!(g.points()[3].neighbors().len(), 1);
    let mut t = VisitTracker::new();
    let r = g.dfs_maxdepth_minneighbors(0, 5, 0, &mut t);
    assert_eq!(r, 0);
    assert_eq!(t.count(), 3);
}

#[test]
fn zero_budget_returns_start() {
    let g = build(&[(0, 0), (0, 5), (0, 5), (0, 10)], &[(0, 1), (1, 2), (2, 3)]);
    let mut t = VisitTracker::new();
    // vertex 3 has one neighbor reached over a weight-5 edge: no budget to move
    assert_eq!(g.dfs_maxdepth_minneighbors(3, 0, 0, &mut t), 3);
    assert_eq!(t.count(), 1);
}

#[test]
fn isolated_start_wins_immediately() {
    let g = build(&[(0, 0), (1, 1), (2, 2)], &[(1, 2)]);
    let mut t = VisitTracker::new();
    assert_eq!(g.dfs_maxdepth_minneighbors(0, 1000, 0, &mut t), 0);
    assert_eq!(t.count(), 1);
}

#[test]
fn larger_budget_reaches_lower_degree() {
    // a degree-1 vertex two hops away, behind a total cost of 10
    let g = build(
        &[(0, 0), (0, 5), (0, 10), (0, 0)],
        &[(0, 1), (0, 3), (1, 3), (1, 2)],
    );
    // degrees: 0 -> 2, 1 -> 3, 2 -> 1, 3 -> 2
    let mut t = VisitTracker::new();
    assert_eq!(g.dfs_maxdepth_minneighbors(0, 5, 0, &mut t), 0);
    t.clear();
    assert_eq!(g.dfs_maxdepth_minneighbors(0, 10, 0, &mut t), 2);
}

/// For a fixed start the achieved minimum degree never rises with the budget.
#[test]
fn achieved_degree_is_monotone_in_budget() {
    let g = build(
        &[(0, 0), (0, 5), (0, 10), (0, 0)],
        &[(0, 1), (0, 3), (1, 3), (1, 2)],
    );
    let mut prev = usize::MAX;
    for budget in [0, 3, 5, 7, 10, 20] {
        let mut t = VisitTracker::new();
        let r = g.dfs_maxdepth_minneighbors(0, budget, 0, &mut t);
        let deg = g.points()[r].neighbors().len();
        assert!(deg <= prev);
        prev = deg;
    }
}

#[test]
fn zero_weight_cycle_terminates() {
    // 0 and 1 share a coordinate: the 0-1 edge costs nothing either way
    let g = build(&[(4, 4), (4, 4), (9, 4)], &[(0, 1), (1, 0), (1, 2)]);
    let mut t = VisitTracker::new();
    let r = g.dfs_maxdepth_minneighbors(0, 100, 0, &mut t);
    // degrees: 0 -> 2, 1 -> 3, 2 -> 1
    assert_eq!(r, 2);
    assert_eq!(t.count(), 3);
}

#[test]
fn self_loop_terminates() {
    let g = build(&[(0, 0), (3, 4)], &[(0, 0), (0, 1)]);
    let mut t = VisitTracker::new();
    let r = g.dfs_maxdepth_minneighbors(0, 50, 0, &mut t);
    // degrees: 0 -> 3 (two self-loop entries and one to 1), 1 -> 1
    assert_eq!(r, 1);
}

#[test]
fn tracker_clear_then_count_is_zero() {
    let mut t = VisitTracker::new();
    t.record(5);
    t.record(7);
    t.record(5);
    assert_eq!(t.count(), 2);
    t.clear();
    assert_eq!(t.count(), 0);
}

#[test]
fn tracker_counts_distinct_vertices() {
    let mut t = VisitTracker::new();
    assert_eq!(t.count(), 0);
    t.record(1);
    t.record(2);
    t.record(2);
    t.record(3);
    assert_eq!(t.count(), 3);
}

#[test]
fn stale_tracker_inflates_only_the_count() {
    let g = build(&[(0, 0), (0, 5)], &[(0, 1)]);
    let mut t = VisitTracker::new();
    t.record(100);
    let r = g.dfs_maxdepth_minneighbors(0, 5, 0, &mut t);
    // the result is unaffected, the diagnostic count is contaminated
    assert_eq!(r, 0);
    assert_eq!(t.count(), 3);
}

#[test]
fn empty_graph_api() {
    let g = WBDGraph::new();
    assert_eq!(g.points().len(), 0);
}
