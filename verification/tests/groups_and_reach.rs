use uber_turns::reach::{
    can_flood_from, lane_connectivity, lane_graph_edges, largest_component,
    strongly_connected_lanes,
};
use uber_turns::{
    find_reachable_from, group_geom, EntryBand, GeomPiece, GroupGeom, Intersection,
    IntersectionCluster, IntersectionID, Lane, LaneID, LaneType, Road, RoadID, RoadNetwork, Turn,
    TurnID, TurnType, UberTurn, UberTurnGroup,
};

fn t(src: usize, dst: usize) -> TurnID {
    TurnID { src: LaneID(src), dst: LaneID(dst) }
}

fn turn(src: usize, dst: usize, allowed: bool) -> Turn {
    Turn { id: t(src, dst), turn_type: TurnType::Straight, allowed }
}

fn ut(path: &[(usize, usize)]) -> UberTurn {
    UberTurn { path: path.iter().map(|(a, b)| t(*a, *b)).collect() }
}

fn cluster(paths: Vec<UberTurn>) -> IntersectionCluster {
    IntersectionCluster { members: vec![IntersectionID(1)], uber_turns: paths }
}

/// A ring of three lanes 0 -> 1 -> 2 -> 0 around intersections 0, 1, 2, a
/// spur lane 3 out of intersection 1 to intersection 3, and a sidewalk 4
/// beside the spur. The turn from lane 2 back to lane 0 may be forbidden.
fn ring(closing_allowed: bool) -> RoadNetwork {
    let lane = |id: usize, parent: usize, src: usize, dst: usize, lane_type: LaneType| Lane {
        id: LaneID(id),
        parent: RoadID(parent),
        lane_type,
        src_i: IntersectionID(src),
        dst_i: IntersectionID(dst),
    };
    let road = |id: usize, src: usize, dst: usize, fwd: Vec<usize>, back: Vec<usize>| Road {
        id: RoadID(id),
        src_i: IntersectionID(src),
        dst_i: IntersectionID(dst),
        complicated_turn_restrictions: Vec::new(),
        children_forwards: fwd.into_iter().map(LaneID).collect(),
        children_backwards: back.into_iter().map(LaneID).collect(),
    };
    RoadNetwork {
        roads: vec![
            road(0, 0, 1, vec![0], vec![]),
            road(1, 1, 2, vec![1], vec![]),
            road(2, 2, 0, vec![2], vec![]),
            road(3, 1, 3, vec![3, 4], vec![5]),
        ],
        lanes: vec![
            lane(0, 0, 0, 1, LaneType::Driving),
            lane(1, 1, 1, 2, LaneType::Driving),
            lane(2, 2, 2, 0, LaneType::Driving),
            lane(3, 3, 1, 3, LaneType::Driving),
            lane(4, 3, 1, 3, LaneType::Sidewalk),
            lane(5, 3, 3, 1, LaneType::Parking),
        ],
        intersections: vec![
            Intersection { id: IntersectionID(0), turns: vec![turn(2, 0, closing_allowed)] },
            Intersection { id: IntersectionID(1), turns: vec![turn(0, 1, true), turn(0, 3, true)] },
            Intersection { id: IntersectionID(2), turns: vec![turn(1, 2, true)] },
            Intersection { id: IntersectionID(3), turns: vec![] },
        ],
    }
}

fn lanes_in(set: &uber_turns::LaneSet, n: usize) -> Vec<usize> {
    (0..n).filter(|l| set.contains(LaneID(*l))).collect()
}

#[test]
fn paths_with_the_same_ends_form_one_group() {
    let a = ut(&[(1, 5), (5, 2)]);
    let b = ut(&[(1, 6), (6, 2)]);
    let groups = cluster(vec![a.clone(), b.clone()]).uber_turn_groups();
    assert_eq!(groups, vec![UberTurnGroup { members: vec![a, b] }]);
}

#[test]
fn groups_come_in_the_order_of_their_lane_pairs() {
    let a = ut(&[(3, 1)]);
    let b = ut(&[(1, 9)]);
    let c = ut(&[(1, 4), (4, 2)]);
    let d = ut(&[(3, 7), (7, 1)]);
    let e = ut(&[(1, 2)]);
    let groups =
        cluster(vec![a.clone(), b.clone(), c.clone(), d.clone(), e.clone()]).uber_turn_groups();
    assert_eq!(
        groups,
        vec![
            UberTurnGroup { members: vec![c, e] },
            UberTurnGroup { members: vec![b] },
            UberTurnGroup { members: vec![a, d] },
        ]
    );
    assert_eq!(groups[0].key(), (LaneID(1), LaneID(2)));
    assert_eq!(groups[2].key(), (LaneID(3), LaneID(1)));
}

#[test]
fn no_paths_no_groups() {
    assert_eq!(cluster(vec![]).uber_turn_groups(), vec![]);
}

#[test]
fn line_of_an_uber_turn_alternates_turns_and_lanes() {
    assert_eq!(ut(&[(1, 2)]).geom(), vec![GeomPiece::Turn(t(1, 2))]);
    assert_eq!(
        ut(&[(1, 2), (2, 3), (3, 4)]).geom(),
        vec![
            GeomPiece::Turn(t(1, 2)),
            GeomPiece::Lane(LaneID(2)),
            GeomPiece::Turn(t(2, 3)),
            GeomPiece::Lane(LaneID(3)),
            GeomPiece::Turn(t(3, 4)),
        ]
    );
}

#[test]
fn lines_of_equal_length_are_averaged_point_by_point() {
    let lines = vec![vec![(0.0, 0.0), (2.0, 0.0), (4.0, 2.0)], vec![(0.0, 2.0), (2.0, 4.0), (4.0, 4.0)]];
    let made = group_geom(lines);
    assert_eq!(
        made,
        GroupGeom::Columns(vec![
            vec![(0.0, 0.0), (0.0, 2.0)],
            vec![(2.0, 0.0), (2.0, 4.0)],
            vec![(4.0, 2.0), (4.0, 4.0)],
        ])
    );
    let one = group_geom(vec![vec![1u8, 2u8]]);
    assert_eq!(one, GroupGeom::Columns(vec![vec![1u8], vec![2u8]]));
}

#[test]
fn lines_of_unequal_length_fall_back_to_the_first() {
    let lines = vec![vec![1, 2, 3], vec![4, 5, 6], vec![7, 8]];
    assert_eq!(group_geom(lines), GroupGeom::Representative(vec![1, 2, 3]));
    let lines = vec![vec![1], vec![4, 5, 6]];
    assert_eq!(group_geom(lines), GroupGeom::Representative(vec![1]));
}

#[test]
fn band_marks_the_entry_lanes_on_their_side() {
    let map = ring(true);
    let group = UberTurnGroup { members: vec![ut(&[(4, 9)]), ut(&[(4, 8), (8, 9)])] };
    assert_eq!(
        group.src_center_and_width(&map),
        EntryBand {
            road: RoadID(3),
            forwards: true,
            lanes: vec![(LaneID(3), false), (LaneID(4), true)],
        }
    );
    let both = UberTurnGroup { members: vec![ut(&[(3, 9)]), ut(&[(4, 9)])] };
    assert_eq!(
        both.src_center_and_width(&map).lanes,
        vec![(LaneID(3), true), (LaneID(4), true)]
    );
    let back = UberTurnGroup { members: vec![ut(&[(5, 9)])] };
    assert_eq!(
        back.src_center_and_width(&map),
        EntryBand { road: RoadID(3), forwards: false, lanes: vec![(LaneID(5), true)] }
    );
}

#[test]
fn reachable_lanes_follow_permitted_turns() {
    let map = ring(true);
    assert!(map.is_valid());
    assert_eq!(lanes_in(&find_reachable_from(LaneID(0), &map), 6), vec![0, 1, 2, 3]);
    assert_eq!(lanes_in(&find_reachable_from(LaneID(3), &map), 6), vec![3]);
    assert_eq!(lanes_in(&find_reachable_from(LaneID(1), &map), 6), vec![0, 1, 2, 3]);
    let open = ring(false);
    assert_eq!(lanes_in(&find_reachable_from(LaneID(1), &open), 6), vec![1, 2]);
    assert_eq!(lanes_in(&find_reachable_from(LaneID(0), &open), 6), vec![0, 1, 2, 3]);
}

#[test]
fn connectivity_report_leaves_out_parking_and_the_other_kind() {
    let map = ring(false);
    let reachable = find_reachable_from(LaneID(1), &map);
    let (report, unreachable) = lane_connectivity(&map, &reachable, false);
    assert_eq!(
        report,
        vec![(LaneID(0), false), (LaneID(1), true), (LaneID(2), true), (LaneID(3), false)]
    );
    assert_eq!(unreachable, 2);
    let (walk, missing) = lane_connectivity(&map, &reachable, true);
    assert_eq!(walk, vec![(LaneID(4), false)]);
    assert_eq!(missing, 1);
}

#[test]
fn flood_fill_starts_from_travel_lanes_only() {
    let map = ring(true);
    assert!(can_flood_from(map.get_l(LaneID(0))));
    assert!(can_flood_from(map.get_l(LaneID(4))));
    assert!(!can_flood_from(map.get_l(LaneID(5))));
    let shared = Lane {
        id: LaneID(0),
        parent: RoadID(0),
        lane_type: LaneType::SharedLeftTurn,
        src_i: IntersectionID(0),
        dst_i: IntersectionID(1),
    };
    assert!(!can_flood_from(&shared));
}

#[test]
fn lane_graph_has_an_edge_for_each_drivable_turn() {
    assert_eq!(lane_graph_edges(&ring(true)), vec![(2, 0), (0, 1), (0, 3), (1, 2)]);
    assert_eq!(lane_graph_edges(&ring(false)), vec![(0, 1), (0, 3), (1, 2)]);
    let mut walked = ring(true);
    walked.intersections[1].turns[1].turn_type = TurnType::Crosswalk;
    assert_eq!(lane_graph_edges(&walked), vec![(2, 0), (0, 1), (1, 2)]);
}

#[test]
fn largest_strong_component_is_the_ring() {
    let set = strongly_connected_lanes(&ring(true)).unwrap();
    assert_eq!(lanes_in(&set, 6), vec![0, 1, 2]);
}

#[test]
fn network_without_turns_has_no_strong_component() {
    let mut map = ring(true);
    for i in map.intersections.iter_mut() {
        i.turns.clear();
    }
    assert!(strongly_connected_lanes(&map).is_none());
}

#[test]
fn among_the_largest_components_the_last_is_taken() {
    assert_eq!(largest_component(&vec![vec![1], vec![2, 3], vec![4]]), 1);
    assert_eq!(largest_component(&vec![vec![1, 5], vec![2, 3], vec![4]]), 1);
    assert_eq!(largest_component(&vec![vec![7]]), 0);
    assert_eq!(largest_component(&vec![vec![1], vec![2], vec![3]]), 2);
}

/// From A the way splits over B and C and joins again at D, which has two
/// ways out.
fn diamond() -> RoadNetwork {
    let ends = [(0, 1), (1, 2), (1, 3), (2, 4), (3, 4), (4, 5), (4, 6)];
    let mut roads = Vec::new();
    let mut lanes = Vec::new();
    for (k, (src, dst)) in ends.iter().enumerate() {
        roads.push(Road {
            id: RoadID(k),
            src_i: IntersectionID(*src),
            dst_i: IntersectionID(*dst),
            complicated_turn_restrictions: Vec::new(),
            children_forwards: vec![LaneID(k)],
            children_backwards: Vec::new(),
        });
        lanes.push(Lane {
            id: LaneID(k),
            parent: RoadID(k),
            lane_type: LaneType::Driving,
            src_i: IntersectionID(*src),
            dst_i: IntersectionID(*dst),
        });
    }
    let at = |id: usize, turns: Vec<Turn>| Intersection { id: IntersectionID(id), turns };
    RoadNetwork {
        roads,
        lanes,
        intersections: vec![
            at(0, vec![]),
            at(1, vec![turn(0, 1, true), turn(0, 2, true)]),
            at(2, vec![turn(1, 3, true)]),
            at(3, vec![turn(2, 4, true)]),
            at(4, vec![turn(3, 5, true), turn(3, 6, true), turn(4, 5, true), turn(4, 6, true)]),
            at(5, vec![]),
            at(6, vec![]),
        ],
    }
}

#[test]
fn two_routes_between_the_same_lanes_share_a_group() {
    let map = diamond();
    assert!(map.is_valid());
    let members = vec![IntersectionID(1), IntersectionID(2), IntersectionID(3), IntersectionID(4)];
    let (legal, illegal) = IntersectionCluster::new(members, &map);
    assert!(illegal.uber_turns.is_empty());
    assert_eq!(
        legal.uber_turns,
        vec![
            ut(&[(0, 1), (1, 3), (3, 5)]),
            ut(&[(0, 1), (1, 3), (3, 6)]),
            ut(&[(0, 2), (2, 4), (4, 5)]),
            ut(&[(0, 2), (2, 4), (4, 6)]),
        ]
    );
    let groups = legal.uber_turn_groups();
    assert_eq!(
        groups,
        vec![
            UberTurnGroup {
                members: vec![ut(&[(0, 1), (1, 3), (3, 5)]), ut(&[(0, 2), (2, 4), (4, 5)])]
            },
            UberTurnGroup {
                members: vec![ut(&[(0, 1), (1, 3), (3, 6)]), ut(&[(0, 2), (2, 4), (4, 6)])]
            },
        ]
    );
    assert_eq!(
        groups[0].src_center_and_width(&map),
        EntryBand { road: RoadID(0), forwards: true, lanes: vec![(LaneID(0), true)] }
    );
}
