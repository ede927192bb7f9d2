//! The layered layout, as far as it goes without geometry.

use graviz::balance::{assign_units, balance_columns};
use graviz::layouts::{lay_out, Plan};
use graviz::adjacency::{distinct_pairs, list_sources, list_targets};
use graviz::cards::{index_of, ModelOptions};
use graviz::clusters::{assign_clusters, gather_clusters, settle_clusters};
use graviz::crossings::{crossings_between, wire};
use graviz::cycles::{break_cycles, order_starts, Dag};
use graviz::depths::bfs_rank;
use graviz::drawing::{find_wanted, layer_component, order_component, set_up};
use graviz::lanes::expand_lanes;
use graviz::layers::{
    list_columns, nearest_successors, rank_component, split_rank, units_of_rank, NO_SUCCESSOR,
};
use graviz::model::build_model;
use graviz::ordering::order_ranks;
use graviz::parts::{
    claim_unit, clusters_within, local_ends, local_places, movable_members, order_by_size,
    root_flags, split_parts, Cluster,
};
use graviz::ranking::{network_simplex, rank_nodes, RankEdge};
use graviz::sdl::sdl_to_graph;
use graviz::sweeps::median;
use graviz::types::SdlToGraphOptions;
use graviz::unions::groups;

#[test]
fn pairs_are_sorted_and_kept_once_without_loops() {
    let list = vec![(2, 1), (0, 1), (2, 1), (1, 1), (0, 0), (1, 2)];
    assert_eq!(distinct_pairs(&list), vec![(0, 1), (1, 2), (2, 1)]);
}

#[test]
fn neighbours_are_listed_in_the_order_of_the_pairs() {
    let pairs = vec![(0, 1), (0, 2), (2, 1)];
    assert_eq!(list_targets(3, &pairs), vec![vec![1, 2], vec![], vec![1]]);
    assert_eq!(list_sources(3, &pairs), vec![vec![], vec![0, 2], vec![0]]);
}

#[test]
fn a_pair_back_to_the_start_is_turned_around() {
    let pairs = vec![(0, 1), (1, 2), (2, 0)];
    let dag = break_cycles(3, &pairs, &vec![0, 1, 2]);
    assert_eq!(dag.pairs, vec![(0, 1), (0, 2), (1, 2)]);
    assert_eq!(dag.reversed, vec![false, true, false]);
}

#[test]
fn which_pair_is_turned_around_depends_on_the_start() {
    let pairs = vec![(0, 1), (1, 2), (2, 0)];
    let dag = break_cycles(3, &pairs, &vec![1, 0, 2]);
    assert_eq!(dag.pairs, vec![(1, 0), (1, 2), (2, 0)]);
    assert_eq!(dag.reversed, vec![true, false, false]);
}

#[test]
fn two_pairs_both_ways_become_one_arc() {
    let dag = break_cycles(2, &vec![(0, 1), (1, 0)], &vec![0, 1]);
    assert_eq!(dag.pairs, vec![(0, 1)]);
    assert_eq!(dag.reversed, vec![false], "the way it was found first");
}

#[test]
fn an_acyclic_graph_is_left_as_it_is() {
    let pairs = vec![(0, 1), (0, 2), (1, 3), (2, 3)];
    let dag = break_cycles(4, &pairs, &vec![3, 2, 1, 0]);
    assert_eq!(dag.pairs, pairs);
    assert_eq!(dag.reversed, vec![false; 4]);
}

#[test]
fn roots_that_nothing_leads_to_are_started_from_first() {
    // 3 is a root without a source, 1 a root with one, 0 has no source, 2 has one
    let pairs = vec![(0, 2), (3, 1)];
    let roots = vec![false, true, false, true];
    assert_eq!(order_starts(&pairs, &roots), vec![3, 1, 0, 2]);
}

#[test]
fn depth_is_the_distance_from_the_roots() {
    let pairs = vec![(0, 1), (1, 2), (0, 2), (2, 3)];
    assert_eq!(bfs_rank(&pairs, &vec![true, false, false, false]), vec![0, 1, 1, 2]);
}

#[test]
fn the_network_simplex_shortens_edges() {
    let edges = vec![
        RankEdge::new(0, 1),
        RankEdge::new(1, 2),
        RankEdge::new(0, 3),
        RankEdge::new(3, 2),
        RankEdge::new(0, 2),
    ];
    let rank = network_simplex(4, &edges, 100);
    assert_eq!(rank, vec![0, 1, 2, 1]);
    let w = rank_nodes(4, &edges, 100);
    assert_eq!(w.rank, rank);
    assert!(w.settled);
}

#[test]
fn monotone_ranks_lead_every_pair_onwards() {
    let pairs = vec![(0, 1), (0, 2), (1, 2)];
    let rank = rank_component(&pairs, &vec![true, false, false], true);
    assert_eq!(rank, vec![0, 1, 2]);
}

#[test]
fn a_component_with_a_cycle_is_layered() {
    let layered = layer_component(
        &vec![(0, 1), (1, 2), (2, 0), (2, 2), (0, 1)],
        &vec![true, false, false],
        true,
    );
    assert_eq!(layered.dag.pairs, vec![(0, 1), (0, 2), (1, 2)]);
    assert_eq!(layered.rank, vec![0, 1, 2]);
}

#[test]
fn the_nearest_successor_is_the_lowest_column_led_to() {
    let near = nearest_successors(&vec![(0, 1), (0, 2)], &vec![0, 3, 1]);
    assert_eq!(near, vec![1, NO_SUCCESSOR, NO_SUCCESSOR]);
}

#[test]
fn columns_list_their_nodes_in_order() {
    assert_eq!(list_columns(&vec![1, 0, 1, 2]), vec![vec![1], vec![0, 2], vec![3]]);
}

#[test]
fn splitting_a_column_moves_later_columns_on() {
    let mut rank = vec![0, 0, 1];
    let mut near = vec![1, 1, NO_SUCCESSOR];
    split_rank(&mut rank, &mut near, 0, &vec![false, true, false]);
    assert_eq!(rank, vec![0, 1, 2]);
}

#[test]
fn the_nodes_of_a_column_are_grouped_into_units() {
    let units = units_of_rank(&vec![0, 0, 0, 1], &vec![0, 1, 0, 3], &vec![5, 4, 2, 9], 0);
    let ids: Vec<usize> = units.iter().map(|u| u.id).collect();
    assert!(ids.contains(&0) && ids.contains(&1) && ids.len() == 2);
    let first = units.iter().find(|u| u.id == 0).unwrap();
    assert_eq!(first.members, vec![0, 2]);
    assert_eq!(first.nearest, 2);
}

#[test]
fn a_long_edge_gets_a_lane_in_each_column_between() {
    let lanes = expand_lanes(&vec![0, 3], &vec![(0, 1)], &vec![false], &vec![true]);
    assert_eq!(lanes.rank, vec![0, 3, 1, 2]);
    assert_eq!(lanes.links, vec![(0, 2), (2, 3), (3, 1)]);
    assert_eq!(lanes.chains.len(), 1);
    assert_eq!(lanes.chains[0].through, vec![2, 3]);
}

#[test]
fn edges_within_a_column_have_no_lane() {
    let lanes = expand_lanes(&vec![0, 0], &vec![(0, 1)], &vec![false], &vec![true]);
    assert_eq!(lanes.rank, vec![0, 0]);
    assert!(lanes.links.is_empty());
}

#[test]
fn the_middle_of_an_even_number_is_the_upper_one() {
    assert_eq!(median(&vec![]), None);
    assert_eq!(median(&vec![3]), Some(3));
    assert_eq!(median(&vec![4, 1]), Some(4));
    assert_eq!(median(&vec![9, 1, 5]), Some(5));
}

#[test]
fn crossed_links_are_counted() {
    // 0 and 1 stand over each other, their links cross on the way to 3 and 2
    let wiring = wire(4, vec![(0, 3), (1, 2)]);
    assert_eq!(crossings_between(0, 1, &vec![0, 1, 0, 1], &wiring), (1, 0));
    assert_eq!(crossings_between(1, 0, &vec![0, 1, 0, 1], &wiring), (0, 1));
}

#[test]
fn ordering_takes_a_crossing_away() {
    let rank = vec![0, 0, 1, 1];
    let wiring = wire(4, vec![(0, 3), (1, 2)]);
    let mut board = set_up(&rank);
    assert_eq!(board.rows, vec![vec![0, 1], vec![2, 3]]);
    order_ranks(&mut board, &wiring, &rank, 0, 8);
    assert_eq!(board.rows, vec![vec![1, 0], vec![2, 3]], "the first swap that pays");
    assert_eq!(board.place, vec![1, 0, 0, 1]);
}

#[test]
fn sweeps_put_nodes_beside_their_neighbours() {
    let rank = vec![0, 0, 1, 1];
    let wiring = wire(4, vec![(0, 3), (1, 2)]);
    let mut board = set_up(&rank);
    order_ranks(&mut board, &wiring, &rank, 1, 0);
    assert_eq!(board.rows, vec![vec![0, 1], vec![3, 2]]);
}

#[test]
fn sifting_carries_a_node_past_several_others() {
    // 0 belongs below 1, 2 and 3, whose links all pass above its own
    let rank = vec![0, 0, 0, 0, 1, 1, 1, 1];
    let wiring = wire(8, vec![(0, 7), (1, 4), (2, 5), (3, 6)]);
    let mut board = set_up(&rank);
    order_ranks(&mut board, &wiring, &rank, 0, 0);
    assert_eq!(board.rows[0], vec![1, 2, 3, 0]);
    assert_eq!(board.rows[1], vec![4, 5, 6, 7]);
}

#[test]
fn a_node_joins_the_smallest_of_its_clusters() {
    let of = assign_clusters(4, &vec![vec![0, 1, 2], vec![2, 3], vec![3, 2]]);
    assert_eq!(of, vec![Some(0), Some(0), Some(1), Some(1)]);
    assert_eq!(assign_clusters(2, &vec![]), vec![None, None]);
}

#[test]
fn clusters_are_gathered_at_their_first_member() {
    let rank = vec![0, 0, 0, 0];
    let mut board = set_up(&rank);
    gather_clusters(&mut board, &vec![None, Some(0), None, Some(0)], &rank);
    assert_eq!(board.rows, vec![vec![0, 1, 3, 2]]);
    assert_eq!(board.place, vec![0, 1, 3, 2]);
}

#[test]
fn whole_runs_slide_past_each_other() {
    // the cluster {0, 1} is linked below 2's partner, so it slides below 2
    let rank = vec![0, 0, 0, 1, 1, 1];
    let wiring = wire(6, vec![(0, 4), (1, 5), (2, 3)]);
    let of = vec![Some(0), Some(0), None, None, None, None];
    let mut board = set_up(&rank);
    settle_clusters(&mut board, &of, &wiring, &rank, 4);
    assert_eq!(board.rows, vec![vec![2, 0, 1], vec![3, 4, 5]]);
}

#[test]
fn a_component_is_drawn_with_its_clusters_together() {
    let dag = Dag { pairs: vec![(0, 1), (0, 2), (0, 3)], reversed: vec![false; 3] };
    let drawn = order_component(&vec![0, 1, 1, 1], &dag, &vec![true; 3], &vec![vec![1, 3]], 4, 4);
    let row = &drawn.board.rows[1];
    let at = |v: usize| row.iter().position(|&x| x == v).unwrap() as i64;
    assert_eq!((at(1) - at(3)).abs(), 1, "{row:?}");
    assert_eq!(drawn.links, vec![(0, 1), (0, 2), (0, 3)]);
}

#[test]
fn joined_things_share_a_group() {
    let (of, count) = groups(5, &vec![(0, 1), (3, 4), (1, 0)]);
    assert_eq!(count, 3);
    assert_eq!(of, vec![0, 0, 1, 2, 2]);
}

#[test]
fn a_graph_falls_into_parts() {
    let parts = split_parts(5, &vec![(0, 2), (4, 3)]);
    let members: Vec<Vec<usize>> = parts.iter().map(|p| p.members.clone()).collect();
    assert_eq!(members, vec![vec![0, 2], vec![1], vec![3, 4]]);
    assert_eq!(parts[2].edges, vec![1]);
    assert!(parts[1].edges.is_empty());
}

#[test]
fn roots_beyond_the_nodes_are_ignored() {
    assert_eq!(root_flags(3, &vec![2, 7]), vec![false, false, true]);
}

#[test]
fn parts_are_numbered_on_their_own() {
    let members = vec![3, 1];
    let places = local_places(4, &members);
    assert_eq!(places, vec![None, Some(1), None, Some(0)]);
    let ends = vec![(3, 1), (0, 2)];
    assert_eq!(local_ends(&places, &members, &ends, &vec![0]), Some(vec![(0, 1)]));
    assert_eq!(local_ends(&places, &members, &ends, &vec![1]), None);
}

#[test]
fn clusters_keep_the_members_of_their_part() {
    let clusters = vec![
        Cluster { parent: 0, members: vec![1, 2, 3] },
        Cluster { parent: 3, members: vec![1, 2] },
        Cluster { parent: 0, members: vec![1, 3] },
    ];
    assert_eq!(clusters_within(4, &vec![0, 1, 2], &clusters), vec![vec![1, 2]]);
}

#[test]
fn small_clusters_come_first() {
    assert_eq!(order_by_size(&vec![vec![1, 2, 3], vec![4], vec![5, 6], vec![7]]), vec![1, 3, 2, 0]);
}

#[test]
fn a_cluster_moves_as_one_unless_it_is_spread_or_taken() {
    let rank = vec![0, 0, 1, 0];
    let free = vec![false; 4];
    assert_eq!(movable_members(&vec![0, 1], &free, &rank), Some(vec![0, 1]));
    let taken = vec![true, false, false, false];
    assert_eq!(movable_members(&vec![0, 1], &taken, &rank), None);
    let mut unit_of = vec![0, 1, 2, 3];
    let mut claimed = free.clone();
    claim_unit(&mut unit_of, &mut claimed, &vec![1, 3], 9);
    assert_eq!(unit_of, vec![0, 9, 2, 9]);
    assert_eq!(claimed, vec![false, true, false, true]);
}

#[test]
fn a_tall_column_gives_up_what_does_not_fit() {
    // 0 leads to the next column, so it is the last to stay
    let rank = balance_columns(&vec![0, 0, 0, 1], &vec![(0, 3)], &vec![], &vec![10; 4], 20, 10);
    assert_eq!(rank, vec![1, 0, 0, 2]);
    let all_fit = balance_columns(&vec![0, 0, 0, 1], &vec![(0, 3)], &vec![], &vec![10; 4], 30, 15);
    assert_eq!(all_fit, vec![0, 0, 0, 1]);
}

#[test]
fn a_cluster_moves_whole_or_not_at_all() {
    let clusters = vec![vec![0, 2]];
    assert_eq!(assign_units(&clusters, &vec![0, 0, 0], &vec![10; 3], 20), vec![3, 1, 3]);
    assert_eq!(assign_units(&clusters, &vec![0, 0, 0], &vec![10; 3], 19), vec![0, 1, 2]);
    assert_eq!(assign_units(&clusters, &vec![0, 0, 1], &vec![10; 3], 20), vec![0, 1, 2]);
    let rank = balance_columns(&vec![0, 0, 0], &vec![], &clusters, &vec![10; 3], 20, 20);
    assert_eq!(rank, vec![1, 0, 1]);
}

#[test]
fn a_single_unit_is_never_split() {
    assert_eq!(balance_columns(&vec![0], &vec![], &vec![], &vec![100], 20, 10), vec![0]);
}

#[test]
fn a_component_is_laid_out_from_its_edges() {
    let plan =
        Plan { monotone: true, cap: 2000, half: 1000, ordering_sweeps: 4, transpose_passes: 4 };
    let layout = lay_out(
        &vec![(0, 1), (1, 2), (2, 0)],
        &vec![true; 3],
        &vec![true, false, false],
        &vec![],
        &vec![10; 3],
        &plan,
    )
    .unwrap();
    assert_eq!(layout.dag.pairs, vec![(0, 1), (0, 2), (1, 2)]);
    assert_eq!(layout.drawn.rank, vec![0, 1, 2, 1]);
    assert_eq!(layout.drawn.links, vec![(0, 1), (0, 3), (3, 2), (1, 2)]);
    assert_eq!(layout.drawn.board.rows.len(), 3);
    let chain = &layout.drawn.chains[0];
    assert_eq!((chain.from, chain.to, chain.through.clone()), (2, 0, vec![3]));
}

/// The plan of a small component: nothing is tall enough to be split.
fn small_plan() -> Plan {
    Plan { monotone: false, cap: 2000, half: 1000, ordering_sweeps: 14, transpose_passes: 8 }
}

#[test]
fn a_chain_fills_the_columns_from_left_to_right() {
    let ends = vec![(0, 1), (1, 2)];
    let roots = vec![true, false, false];
    let layout = lay_out(&ends, &vec![true; ends.len()], &roots, &vec![], &vec![62; 3], &small_plan()).unwrap();
    assert_eq!(layout.drawn.rank, vec![0, 1, 2]);
    assert_eq!(layout.drawn.board.rows, vec![vec![0], vec![1], vec![2]]);
    assert!(layout.drawn.chains.is_empty());
}

#[test]
fn a_cycle_without_roots_is_laid_out() {
    let ends = vec![(0, 1), (1, 2), (2, 0)];
    let layout = lay_out(&ends, &vec![true; ends.len()], &vec![false; 3], &vec![], &vec![62; 3], &small_plan()).unwrap();
    let mut placed: Vec<usize> = layout.drawn.board.rows.concat();
    placed.sort();
    assert_eq!(placed, (0..layout.drawn.rank.len()).collect::<Vec<usize>>());
}

#[test]
fn variants_of_a_union_stand_together_in_their_column() {
    let ends = vec![(0, 1), (0, 2), (0, 3), (4, 5), (4, 2)];
    let roots = vec![true, false, false, false, true, false];
    let clusters = vec![vec![1, 2, 3]];
    let layout = lay_out(&ends, &vec![true; ends.len()], &roots, &clusters, &vec![62; 6], &small_plan()).unwrap();
    let rank = &layout.drawn.rank;
    assert!(rank[1] == rank[2] && rank[1] == rank[3]);
    assert!(rank[0] < rank[1]);
    let row = &layout.drawn.board.rows[rank[1] as usize];
    let at: Vec<usize> = (0..row.len()).filter(|&i| [1, 2, 3].contains(&row[i])).collect();
    assert_eq!(at.len(), 3);
    assert_eq!(at[2] - at[0], 2, "an unrelated type split the union block: {row:?}");
}

#[test]
fn a_dense_component_is_ordered_no_worse_than_it_came() {
    let mut ends: Vec<(usize, usize)> = Vec::new();
    for i in 0..6usize {
        for j in 6..13usize {
            if (i * 7 + j) % 3 != 0 {
                ends.push((i, j));
            }
        }
    }
    ends.push((13, 0));
    let n_edges = ends.len();
    let mut roots = vec![false; 14];
    roots[13] = true;
    let layout = lay_out(&ends, &vec![true; ends.len()], &roots, &vec![], &vec![52; 14], &small_plan()).unwrap();
    let board = &layout.drawn.board;
    let mut crossed = 0;
    for rank in 0..board.rows.len() as i32 - 1 {
        let links: Vec<(usize, usize)> = layout
            .drawn
            .links
            .iter()
            .copied()
            .filter(|&(a, _)| layout.drawn.rank[a] == rank)
            .collect();
        let at = |v: usize| board.rows.iter().find_map(|r| r.iter().position(|&u| u == v)).unwrap();
        for (i, &(a, b)) in links.iter().enumerate() {
            for &(c, d) in &links[i + 1..] {
                if (at(a) < at(c) && at(b) > at(d)) || (at(a) > at(c) && at(b) < at(d)) {
                    crossed += 1;
                }
            }
        }
    }
    assert!(crossed <= n_edges * n_edges / 4, "{crossed} crossings is worse than random");
}

#[test]
fn a_long_edge_passes_its_columns_in_lanes_of_its_own() {
    let ends = vec![(0, 1), (1, 2), (2, 3), (0, 3)];
    let roots = vec![true, false, false, false];
    let mut plan = small_plan();
    plan.monotone = true;
    let layout = lay_out(&ends, &vec![true; ends.len()], &roots, &vec![], &vec![62; 4], &plan).unwrap();
    assert_eq!(layout.drawn.rank, vec![0, 1, 2, 3, 1, 2]);
    let long = layout.drawn.chains.iter().find(|c| (c.from, c.to) == (0, 3)).unwrap();
    assert_eq!(long.through, vec![4, 5]);
}

#[test]
fn a_cycle_of_four_is_laid_out_one_column_each() {
    let plan =
        Plan { monotone: true, cap: 2000, half: 1000, ordering_sweeps: 4, transpose_passes: 4 };
    let ends = vec![(0, 1), (1, 2), (2, 3), (3, 0)];
    let roots = vec![true, false, false, false];
    let layout = lay_out(&ends, &vec![true; ends.len()], &roots, &vec![], &vec![10; 4], &plan).unwrap();
    assert_eq!(layout.drawn.rank[..4].to_vec(), vec![0, 1, 2, 3]);
    assert_eq!(layout.drawn.rank.len(), 6);
    assert_eq!(layout.drawn.chains.len(), 1);
    assert_eq!(layout.drawn.chains[0].through.len(), 2);
}

#[test]
fn an_edge_that_is_not_to_be_routed_gets_no_lane() {
    let lanes = expand_lanes(&vec![0, 1, 3], &vec![(0, 1), (0, 2)], &vec![false; 2], &vec![false; 2]);
    assert_eq!(lanes.rank, vec![0, 1, 3]);
    assert_eq!(lanes.links, vec![(0, 1)]);
    assert!(lanes.chains.is_empty());
}

#[test]
fn a_pair_is_routed_as_soon_as_one_of_its_edges_is() {
    let dag = Dag { pairs: vec![(0, 1), (0, 2), (1, 2)], reversed: vec![false, true, false] };
    let ends = vec![(0, 1), (2, 0), (2, 0), (1, 2), (1, 1)];
    let wanted = find_wanted(&ends, &vec![false, false, true, false, true], &dag);
    assert_eq!(wanted, vec![false, true, false]);
}

#[test]
fn only_routed_edges_pass_through_lanes() {
    let ends = vec![(0, 1), (1, 2), (2, 3), (0, 3), (0, 2)];
    let roots = vec![true, false, false, false];
    let mut plan = small_plan();
    plan.monotone = true;
    let routed = vec![true, true, true, false, true];
    let layout = lay_out(&ends, &routed, &roots, &vec![], &vec![62; 4], &plan).unwrap();
    let pairs: Vec<(usize, usize)> = layout.drawn.chains.iter().map(|c| (c.from, c.to)).collect();
    assert_eq!(pairs, vec![(0, 2)]);
    assert_eq!(layout.drawn.rank, vec![0, 1, 2, 3, 1]);
}

/// A type that sixty others lead to is a hub: its links are faded, and long ones get no lane.
#[test]
fn a_hub_link_gets_no_chain() {
    let mut sdl = String::from("type Query { a0: A0 } type Hub { x: Int }\n");
    for i in 0..60 {
        let next = if i < 59 { format!("next: A{}", i + 1) } else { String::new() };
        sdl.push_str(&format!("type A{i} {{ hub: Hub {next} }}\n"));
    }
    let g = sdl_to_graph(&sdl, &SdlToGraphOptions::default());
    let m = build_model(g, "t".into(), &ModelOptions::on_day("2020-01-01"));
    let hub = index_of(&m.graph.nodes, "Hub").unwrap();
    let ends: Vec<(usize, usize)> =
        m.links.iter().map(|l| (l.from as usize, l.to as usize)).collect();
    let routed: Vec<bool> = m.links.iter().map(|l| !l.hub_faded).collect();
    assert!(m.links.iter().all(|l| l.hub_faded == (l.to == hub)));
    let mut roots = vec![false; m.cards.len()];
    roots[index_of(&m.graph.nodes, "Query").unwrap() as usize] = true;
    let mut plan = small_plan();
    plan.monotone = true;
    let heights = vec![10; m.cards.len()];
    let all = vec![true; ends.len()];
    let layout = lay_out(&ends, &all, &roots, &vec![], &heights, &plan).unwrap();
    assert!(layout.drawn.chains.iter().any(|c| c.to == hub as usize));
    let layout = lay_out(&ends, &routed, &roots, &vec![], &heights, &plan).unwrap();
    assert!(layout.drawn.chains.iter().all(|c| c.to != hub as usize));
    assert_eq!(layout.drawn.rank.len(), m.cards.len());
}
