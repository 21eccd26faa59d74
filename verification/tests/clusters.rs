use uber_turns::boundary::classify_boundary;
use uber_turns::collections::{TurnMap, TurnSet};
use uber_turns::members::sort_members;
use uber_turns::restrictions::{all_restrictions, breaks_restriction, restriction_graph_edges};
use uber_turns::{
    flood, trace_back, Intersection, IntersectionCluster, IntersectionID, Lane, LaneID, LaneType,
    Road, RoadID, RoadNetwork, Turn, TurnID, TurnType, UberTurn,
};

fn lane(id: usize, parent: usize, src: usize, dst: usize) -> Lane {
    Lane {
        id: LaneID(id),
        parent: RoadID(parent),
        lane_type: LaneType::Driving,
        src_i: IntersectionID(src),
        dst_i: IntersectionID(dst),
    }
}

fn road(id: usize, src: usize, dst: usize, restrictions: Vec<(usize, usize)>, lanes: Vec<usize>) -> Road {
    Road {
        id: RoadID(id),
        src_i: IntersectionID(src),
        dst_i: IntersectionID(dst),
        complicated_turn_restrictions: restrictions
            .into_iter()
            .map(|(via, to)| (RoadID(via), RoadID(to)))
            .collect(),
        children_forwards: lanes.into_iter().map(LaneID).collect(),
        children_backwards: Vec::new(),
    }
}

fn t(src: usize, dst: usize) -> TurnID {
    TurnID { src: LaneID(src), dst: LaneID(dst) }
}

fn turn(src: usize, dst: usize) -> Turn {
    Turn { id: t(src, dst), turn_type: TurnType::Straight, allowed: true }
}

fn intersection(id: usize, turns: Vec<Turn>) -> Intersection {
    Intersection { id: IntersectionID(id), turns }
}

fn ids(list: &[usize]) -> Vec<IntersectionID> {
    list.iter().map(|i| IntersectionID(*i)).collect()
}

fn paths(cluster: &IntersectionCluster) -> Vec<Vec<TurnID>> {
    cluster.uber_turns.iter().map(|ut| ut.path.clone()).collect()
}

/// One road per lane, lane `k` on road `k`.
fn network(lanes: Vec<(usize, usize)>, restrictions: Vec<(usize, usize, usize)>, turns: Vec<(usize, Vec<Turn>)>, n: usize) -> RoadNetwork {
    let mut roads = Vec::new();
    let mut ls = Vec::new();
    for (k, (src, dst)) in lanes.iter().enumerate() {
        let own: Vec<(usize, usize)> = restrictions
            .iter()
            .filter(|r| r.0 == k)
            .map(|r| (r.1, r.2))
            .collect();
        roads.push(road(k, *src, *dst, own, vec![k]));
        ls.push(lane(k, k, *src, *dst));
    }
    let mut intersections = Vec::new();
    for i in 0..n {
        let here = turns.iter().find(|(at, _)| *at == i).map(|(_, v)| v.clone()).unwrap_or_default();
        intersections.push(intersection(i, here));
    }
    RoadNetwork { roads, lanes: ls, intersections }
}

/// West - A - B - C, with a branch from B to the north. Coming from the
/// west road, one may not go through A-B onto B-C.
fn three_in_a_row() -> RoadNetwork {
    network(
        vec![(0, 1), (1, 2), (2, 3), (2, 4)],
        vec![(0, 1, 2)],
        vec![(1, vec![turn(0, 1)]), (2, vec![turn(1, 2), turn(1, 3)])],
        5,
    )
}

/// An entrance at A splits at B towards C and D, each with its own exit.
fn fork() -> RoadNetwork {
    network(
        vec![(0, 1), (1, 2), (2, 3), (2, 4), (3, 5), (4, 6)],
        vec![],
        vec![
            (1, vec![turn(0, 1)]),
            (2, vec![turn(1, 2), turn(1, 3)]),
            (3, vec![turn(2, 4)]),
            (4, vec![turn(3, 5)]),
        ],
        7,
    )
}

#[test]
fn entry_and_exit_are_the_outer_lanes() {
    let ut = UberTurn { path: vec![t(1, 2), t(2, 5)] };
    assert_eq!(ut.entry(), LaneID(1));
    assert_eq!(ut.exit(), LaneID(5));
    let single = UberTurn { path: vec![t(7, 9)] };
    assert_eq!(single.entry(), LaneID(7));
    assert_eq!(single.exit(), LaneID(9));
}

#[test]
fn network_validity_is_decided() {
    assert!(three_in_a_row().is_valid());
    assert!(fork().is_valid());
    let mut dangling_lane = three_in_a_row();
    dangling_lane.intersections[1].turns.push(turn(0, 17));
    assert!(!dangling_lane.is_valid());
    let mut wrong_place = three_in_a_row();
    wrong_place.intersections[3].turns.push(turn(0, 1));
    assert!(!wrong_place.is_valid());
    let mut dangling_road = three_in_a_row();
    dangling_road.roads[0].complicated_turn_restrictions.push((RoadID(1), RoadID(40)));
    assert!(!dangling_road.is_valid());
    let mut wrong_id = three_in_a_row();
    wrong_id.lanes[2].id = LaneID(3);
    assert!(!wrong_id.is_valid());
}

#[test]
fn restrictions_are_flattened_road_by_road() {
    let map = three_in_a_row();
    assert_eq!(all_restrictions(&map), vec![(RoadID(0), RoadID(1), RoadID(2))]);
    assert_eq!(all_restrictions(&fork()), vec![]);
}

#[test]
fn restriction_graph_joins_the_ends_of_the_via_road() {
    let map = three_in_a_row();
    assert_eq!(restriction_graph_edges(&map), vec![(1usize, 2usize)]);
}

#[test]
fn a_path_breaks_a_restriction_only_over_its_three_roads() {
    let map = three_in_a_row();
    let triples = all_restrictions(&map);
    assert!(breaks_restriction(&map, &triples, &vec![t(0, 1), t(1, 2)]));
    assert!(!breaks_restriction(&map, &triples, &vec![t(0, 1), t(1, 3)]));
    assert!(!breaks_restriction(&map, &triples, &vec![t(0, 1)]));
    assert!(!breaks_restriction(&map, &triples, &vec![]));
}

#[test]
fn members_are_sorted_and_deduplicated() {
    assert_eq!(sort_members(&ids(&[3, 1, 2, 1, 3])), ids(&[1, 2, 3]));
    assert_eq!(sort_members(&ids(&[])), ids(&[]));
    assert_eq!(sort_members(&ids(&[5])), ids(&[5]));
}

#[test]
fn boundary_of_two_intersections() {
    let map = three_in_a_row();
    let (entrances, exits) = classify_boundary(&ids(&[1, 2]), &map);
    assert_eq!(entrances, vec![t(0, 1)]);
    assert!(exits.contains(&t(1, 2)));
    assert!(exits.contains(&t(1, 3)));
    assert!(!exits.contains(&t(0, 1)));
}

#[test]
fn sidewalk_turns_are_never_on_the_boundary() {
    let mut map = three_in_a_row();
    map.intersections[1].turns[0].turn_type = TurnType::Crosswalk;
    map.intersections[2].turns[1].turn_type = TurnType::SharedSidewalkCorner;
    let (entrances, exits) = classify_boundary(&ids(&[1, 2]), &map);
    assert_eq!(entrances, vec![]);
    assert!(exits.contains(&t(1, 2)));
    assert!(!exits.contains(&t(1, 3)));
}

#[test]
fn restricted_path_is_illegal_and_the_other_legal() {
    let map = three_in_a_row();
    let (legal, illegal) = IntersectionCluster::new(ids(&[2, 1, 1]), &map);
    assert_eq!(legal.members, ids(&[1, 2]));
    assert_eq!(illegal.members, ids(&[1, 2]));
    assert_eq!(paths(&legal), vec![vec![t(0, 1), t(1, 3)]]);
    assert_eq!(paths(&illegal), vec![vec![t(0, 1), t(1, 2)]]);
}

#[test]
fn discovery_finds_the_cluster_of_the_via_road() {
    let map = three_in_a_row();
    let clusters = IntersectionCluster::find_all(&map);
    assert_eq!(clusters.len(), 1);
    assert_eq!(clusters[0].members, ids(&[1, 2]));
    assert_eq!(paths(&clusters[0]), vec![vec![t(0, 1), t(1, 3)]]);
}

#[test]
fn discovery_without_restrictions_finds_nothing() {
    assert_eq!(IntersectionCluster::find_all(&fork()), vec![]);
}

#[test]
fn discovery_keeps_separate_components_apart() {
    // Two chains, each with its own restriction: 0-1-2-3 and 4-5-6-7.
    let map = network(
        vec![(0, 1), (1, 2), (2, 3), (4, 5), (5, 6), (6, 7)],
        vec![(0, 1, 2), (3, 4, 5)],
        vec![
            (1, vec![turn(0, 1)]),
            (2, vec![turn(1, 2)]),
            (5, vec![turn(3, 4)]),
            (6, vec![turn(4, 5)]),
        ],
        8,
    );
    assert!(map.is_valid());
    let clusters = IntersectionCluster::find_all(&map);
    assert_eq!(clusters.len(), 2);
    let mut members: Vec<Vec<IntersectionID>> = clusters.iter().map(|c| c.members.clone()).collect();
    members.sort();
    assert_eq!(members, vec![ids(&[1, 2]), ids(&[5, 6])]);
    for c in &clusters {
        assert!(c.uber_turns.is_empty());
    }
}

#[test]
fn discovery_twice_gives_the_same() {
    let map = three_in_a_row();
    assert_eq!(IntersectionCluster::find_all(&map), IntersectionCluster::find_all(&map));
    let first = IntersectionCluster::new(ids(&[1, 2, 3, 4]), &fork());
    let second = IntersectionCluster::new(ids(&[4, 3, 2, 1]), &fork());
    assert_eq!(first, second);
}

#[test]
fn entrance_that_is_its_own_exit_is_one_single_turn() {
    let map = three_in_a_row();
    let (legal, illegal) = IntersectionCluster::new(ids(&[1]), &map);
    assert_eq!(paths(&legal), vec![vec![t(0, 1)]]);
    assert_eq!(paths(&illegal), Vec::<Vec<TurnID>>::new());
    assert_eq!(legal.uber_turns[0].entry(), LaneID(0));
    assert_eq!(legal.uber_turns[0].exit(), LaneID(1));
}

#[test]
fn cluster_without_entrance_has_no_paths() {
    let map = three_in_a_row();
    let (legal, illegal) = IntersectionCluster::new(ids(&[0, 1, 2, 3, 4]), &map);
    assert_eq!(legal.members, ids(&[0, 1, 2, 3, 4]));
    assert!(legal.uber_turns.is_empty());
    assert!(illegal.uber_turns.is_empty());
    let (empty, _) = IntersectionCluster::new(ids(&[]), &map);
    assert!(empty.members.is_empty());
    assert!(empty.uber_turns.is_empty());
}

#[test]
fn search_expands_the_turn_found_last_first() {
    let map = fork();
    let (_, exits) = classify_boundary(&ids(&[1, 2, 3, 4]), &map);
    let found = flood(t(0, 1), &map, &exits);
    let got: Vec<Vec<TurnID>> = found.into_iter().map(|ut| ut.path).collect();
    assert_eq!(
        got,
        vec![vec![t(0, 1), t(1, 3), t(3, 5)], vec![t(0, 1), t(1, 2), t(2, 4)]]
    );
}

#[test]
fn search_keeps_the_first_route_to_a_turn() {
    // Both branches from B meet again on lane 4, which leaves the cluster
    // over one exit.
    let map = network(
        vec![(0, 1), (1, 2), (2, 3), (2, 3), (3, 4), (4, 5)],
        vec![],
        vec![
            (1, vec![turn(0, 1)]),
            (2, vec![turn(1, 2), turn(1, 3)]),
            (3, vec![turn(2, 4), turn(3, 4)]),
            (4, vec![turn(4, 5)]),
        ],
        6,
    );
    assert!(map.is_valid());
    let (legal, _) = IntersectionCluster::new(ids(&[1, 2, 3, 4]), &map);
    assert_eq!(paths(&legal), vec![vec![t(0, 1), t(1, 3), t(3, 4), t(4, 5)]]);
}

#[test]
fn search_ends_on_a_loop() {
    // Lane 1 leads from A to B and lane 2 back from B to A.
    let map = network(
        vec![(0, 1), (1, 2), (2, 1), (2, 3)],
        vec![],
        vec![(1, vec![turn(0, 1), turn(2, 1)]), (2, vec![turn(1, 2), turn(1, 3)])],
        4,
    );
    assert!(map.is_valid());
    let (legal, _) = IntersectionCluster::new(ids(&[1, 2]), &map);
    assert_eq!(paths(&legal), vec![vec![t(0, 1), t(1, 3)]]);
}

#[test]
fn every_path_is_a_chain_between_outside_lanes() {
    let map = fork();
    let members = ids(&[1, 2, 3, 4]);
    let (legal, illegal) = IntersectionCluster::new(members.clone(), &map);
    assert_eq!(legal.uber_turns.len(), 2);
    for ut in legal.uber_turns.iter().chain(illegal.uber_turns.iter()) {
        for pair in ut.path.windows(2) {
            assert_eq!(pair[0].dst, pair[1].src);
        }
        assert!(!members.contains(&map.get_l(ut.entry()).src_i));
        assert!(!members.contains(&map.get_l(ut.exit()).dst_i));
        for turn in &ut.path {
            assert!(members.contains(&map.get_l(turn.src).dst_i));
        }
    }
}

#[test]
fn no_legal_path_breaks_a_restriction_and_every_illegal_one_does() {
    let map = three_in_a_row();
    let triples = all_restrictions(&map);
    let (legal, illegal) = IntersectionCluster::new(ids(&[1, 2]), &map);
    for ut in &legal.uber_turns {
        assert!(!breaks_restriction(&map, &triples, &ut.path));
    }
    assert_eq!(illegal.uber_turns.len(), 1);
    for ut in &illegal.uber_turns {
        assert!(breaks_restriction(&map, &triples, &ut.path));
    }
}

#[test]
fn trace_back_follows_the_links_to_the_start() {
    let mut preds = TurnMap::new();
    preds.insert(t(1, 2), t(0, 1));
    preds.insert(t(2, 3), t(1, 2));
    preds.insert(t(1, 4), t(0, 1));
    assert_eq!(trace_back(t(2, 3), t(0, 1), &preds), vec![t(0, 1), t(1, 2), t(2, 3)]);
    assert_eq!(trace_back(t(1, 4), t(0, 1), &preds), vec![t(0, 1), t(1, 4)]);
    assert_eq!(trace_back(t(0, 1), t(0, 1), &preds), vec![t(0, 1)]);
}

#[test]
fn turn_set_and_map_behave_as_set_and_map() {
    let mut set = TurnSet::new();
    assert!(!set.contains(&t(1, 2)));
    set.insert(t(1, 2));
    set.insert(t(1, 2));
    set.insert(t(2, 1));
    assert!(set.contains(&t(1, 2)));
    assert!(set.contains(&t(2, 1)));
    assert!(!set.contains(&t(2, 2)));
    let mut map = TurnMap::new();
    assert_eq!(map.get(&t(1, 2)), None);
    map.insert(t(1, 2), t(0, 1));
    map.insert(t(3, 4), t(1, 2));
    assert_eq!(map.get(&t(1, 2)), Some(t(0, 1)));
    assert!(map.contains_key(&t(3, 4)));
    assert!(!map.contains_key(&t(0, 1)));
    map.insert(t(1, 2), t(9, 9));
    assert_eq!(map.get(&t(1, 2)), Some(t(9, 9)));
}

#[test]
fn network_lookups() {
    let map = three_in_a_row();
    assert_eq!(map.get_turns_from_lane(LaneID(1)), vec![t(1, 2), t(1, 3)]);
    assert_eq!(map.get_turns_from_lane(LaneID(0)), vec![t(0, 1)]);
    assert_eq!(map.get_turns_from_lane(LaneID(3)), vec![]);
    assert_eq!(map.get_t(t(1, 3)).map(|x| x.id), Some(t(1, 3)));
    assert_eq!(map.get_t(t(1, 0)).map(|x| x.id), None);
    assert_eq!(map.get_parent(LaneID(2)).id, RoadID(2));
    assert_eq!(map.get_r(RoadID(3)).dst_i, IntersectionID(4));
    assert_eq!(map.get_turns_in_intersection(IntersectionID(2)).len(), 2);
    assert!(map.get_r(RoadID(0)).is_forwards(LaneID(0)));
    assert!(!map.get_r(RoadID(0)).is_forwards(LaneID(1)));
    assert_eq!(map.get_r(RoadID(0)).lanes_on_side(true), &vec![LaneID(0)]);
    assert_eq!(map.get_r(RoadID(0)).lanes_on_side(false), &Vec::<LaneID>::new());
    assert!(Turn { id: t(0, 1), turn_type: TurnType::Crosswalk, allowed: true }.between_sidewalks());
    assert!(!turn(0, 1).between_sidewalks());
    assert!(!map.get_l(LaneID(0)).is_sidewalk());
    assert!(!map.get_l(LaneID(0)).is_parking());
}
