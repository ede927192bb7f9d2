//! Columns by network simplex.

use graviz::ranking::{fit_ranks, network_simplex, RankEdge};

fn total_span(edges: &[RankEdge], rank: &[i32]) -> i32 {
    edges
        .iter()
        .map(|e| (rank[e.to as usize] - rank[e.from as usize]) * e.weight)
        .sum()
}

#[test]
fn every_edge_runs_forward() {
    let edges = vec![
        RankEdge::new(0, 1),
        RankEdge::new(1, 2),
        RankEdge::new(2, 3),
        RankEdge::new(0, 3),
        RankEdge::new(0, 2),
    ];
    let rank = network_simplex(4, &edges, 256);
    for e in &edges {
        assert!(
            rank[e.to as usize] > rank[e.from as usize],
            "edge {}->{} runs backwards: {rank:?}",
            e.from,
            e.to
        );
    }
}

#[test]
fn beats_longest_path_on_total_span() {
    // A chain with a shortcut: longest-path drags the shortcut's target
    // to the end of the chain, the simplex does not have to.
    //   0→1→2→3→4→5   plus   6→1 and 6→5
    let edges = vec![
        RankEdge::new(0, 1),
        RankEdge::new(1, 2),
        RankEdge::new(2, 3),
        RankEdge::new(3, 4),
        RankEdge::new(4, 5),
        RankEdge::new(6, 1),
        RankEdge::new(6, 5),
    ];
    let simplex = network_simplex(7, &edges, 256);
    // Longest path for comparison.
    let mut lp = vec![0i32; 7];
    for _ in 0..7 {
        for e in &edges {
            let c = lp[e.from as usize] + 1;
            if c > lp[e.to as usize] {
                lp[e.to as usize] = c;
            }
        }
    }
    assert!(
        total_span(&edges, &simplex) <= total_span(&edges, &lp),
        "simplex {} vs longest-path {}",
        total_span(&edges, &simplex),
        total_span(&edges, &lp)
    );
}

#[test]
fn weight_pulls_an_edge_tight() {
    // 0→1, 0→2, 1→3, 2→3, with 0→2 heavily weighted: 2 should sit right
    // after 0 rather than being dragged along by the other path.
    let edges = vec![
        RankEdge::new(0, 1),
        RankEdge { from: 0, to: 2, weight: 8, minlen: 1 },
        RankEdge::new(1, 3),
        RankEdge::new(2, 3),
    ];
    let rank = network_simplex(4, &edges, 256);
    assert_eq!(rank[2] - rank[0], 1);
}

#[test]
fn handles_a_single_node_and_no_edges() {
    assert_eq!(network_simplex(1, &[], 16), vec![0]);
    assert_eq!(network_simplex(0, &[], 16), Vec::<i32>::new());
}

#[test]
fn ignores_self_loops() {
    let edges = vec![RankEdge::new(0, 0), RankEdge::new(0, 1)];
    let rank = network_simplex(2, &edges, 16);
    assert_eq!(rank[1] - rank[0], 1);
}

#[test]
fn parts_that_do_not_hang_together_are_ranked_as_tightly() {
    // 0 stands alone; 5 is pulled up to its only neighbour
    let edges = vec![
        RankEdge::new(1, 2),
        RankEdge::new(2, 3),
        RankEdge::new(3, 4),
        RankEdge::new(5, 4),
    ];
    let rank = network_simplex(6, &edges, 256);
    assert_eq!(total_span(&edges, &rank), 4);
    assert_eq!(rank[4] - rank[5], 1);
    assert_eq!(rank.iter().min(), Some(&0));
}

#[test]
fn doubled_edges_are_ranked_too() {
    let edges = vec![RankEdge::new(0, 1), RankEdge::new(0, 1), RankEdge::new(2, 1), RankEdge::new(0, 2)];
    let rank = network_simplex(3, &edges, 256);
    assert_eq!(rank, vec![0, 2, 1]);
}

fn wide(from: u32, to: u32, minlen: i32) -> RankEdge {
    RankEdge { from, to, weight: 1, minlen }
}

#[test]
fn wide_edges_are_ranked_as_far_as_ranks_go() {
    assert_eq!(network_simplex(2, &[wide(0, 1, 600_000_000)], 100), vec![0, 600_000_000]);
    assert_eq!(network_simplex(2, &[wide(0, 1, i32::MAX)], 100), vec![0, i32::MAX]);
    let uneven = [wide(0, 1, 1_500_000_000), wide(1, 2, 1)];
    assert_eq!(network_simplex(3, &uneven, 100), vec![0, 1_500_000_000, 1_500_000_001]);
    assert_eq!(fit_ranks(3, &uneven, 100).unwrap().rank[2], 1_500_000_001);
    let far = [wide(0, 1, 1_500_000_000), wide(1, 2, 1_500_000_000)];
    assert!(fit_ranks(3, &far, 100).is_none());
}
