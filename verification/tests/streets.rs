use polis::city::{
    count_unbuilt, count_vacant, district_border_edges, entry_point_name, find_lot, hex64,
    host_candidates, lots_by_district, merge_seats, moved_nodes, occupy, road_class_name,
    roof_form_name, seats_to_compute, vacate, GrowthOutcome, LayoutInputs, Lot, Seat,
};
use polis::blocks::Block;
use polis::landmarks::EntryPointKind;
use polis::logical::LogicalPath;
use polis::ordered::{TextMap, TextSet};
use polis::rng::RoofForm;
use polis::search::{
    accept, ascending_plots, causeway_next, district_seat, far_offers, near_hosts, nearest_birth,
    outermost, rank_by_distance, refresh_open, rim_hosts, Causeway, Offer, SEARCH_HOSTS,
};
use polis::streets::{build_streets, street_diagnostics, street_order, trace, Street};
use polis::territory::{Node, Territory};
use polis::ways::{cheapest_ways, toll_of, RoadClass, Roads};

fn lp(s: &str) -> LogicalPath {
    LogicalPath::new(s).expect("a valid test path")
}

/// A network from its roads: the two ends and what each costs.
fn network(nodes: usize, roads: &[(u32, u32, u64)]) -> Roads {
    let mut at = vec![Vec::new(); nodes];
    for (e, (a, b, _)) in roads.iter().enumerate() {
        at[*a as usize].push(e as u32);
        at[*b as usize].push(e as u32);
    }
    Roads {
        ends: roads.iter().map(|(a, b, _)| (*a, *b)).collect(),
        at,
        toll: roads.iter().map(|(_, _, t)| *t).collect(),
    }
}

#[test]
fn the_cheapest_way_is_found() {
    // A square with a dear diagonal, and a node that no road leads to.
    let g = network(5, &[(0, 1, 4), (1, 2, 4), (0, 2, 9), (2, 3, 1), (0, 3, 20)]);
    let ways = cheapest_ways(&g, 0);
    assert_eq!(ways.cost, vec![Some(0), Some(4), Some(8), Some(9), None]);
    assert_eq!(ways.by, vec![u32::MAX, 0, 1, 3, u32::MAX]);
    assert_eq!(trace(&ways.by, &g.ends, 0, 3), vec![0, 1, 2, 3]);
    assert_eq!(trace(&ways.by, &g.ends, 0, 0), vec![0]);
}

#[test]
fn ways_of_the_same_cost_resolve_to_the_nearest_node() {
    // Node 3 is reached from 1 and from 2 at the same cost.
    let g = network(4, &[(0, 2, 1), (0, 1, 1), (2, 3, 1), (1, 3, 1)]);
    let ways = cheapest_ways(&g, 0);
    assert_eq!(ways.cost[3], Some(2));
    assert_eq!(ways.by[3], 3, "node 1 stands ahead of node 2");
}

#[test]
fn ways_agree_with_a_search_through_all_walks() {
    let mut state: u64 = 7;
    let mut next = |bound: u64| {
        state = state.wrapping_mul(6_364_136_223_846_793_005).wrapping_add(1_442_695_040_888_963_407);
        (state >> 33) % bound
    };
    for _ in 0..40 {
        let n = 8;
        let roads: Vec<(u32, u32, u64)> = (0..14)
            .map(|_| (next(n) as u32, next(n) as u32, next(9)))
            .filter(|(a, b, _)| a != b)
            .collect();
        let g = network(n as usize, &roads);
        let mut best: Vec<Option<u128>> = vec![None; n as usize];
        best[0] = Some(0);
        for _ in 0..n {
            for (a, b, t) in &roads {
                for (x, y) in [(*a as usize, *b as usize), (*b as usize, *a as usize)] {
                    if let Some(c) = best[x] {
                        let d = c + u128::from(*t);
                        if best[y].map_or(true, |e| d < e) {
                            best[y] = Some(d);
                        }
                    }
                }
            }
        }
        assert_eq!(cheapest_ways(&g, 0).cost, best);
    }
}

#[test]
fn main_roads_are_discounted() {
    assert_eq!(toll_of(1_000, RoadClass::Arterial), 72_000);
    assert_eq!(toll_of(1_000, RoadClass::Street), 88_000);
    assert_eq!(toll_of(1_000, RoadClass::Alley), 100_000);
}

fn street(from: &str, to: &str, edge_count: u32) -> Street {
    Street { from: lp(from), to: lp(to), edge_count }
}

#[test]
fn streets_run_along_the_roads_between_districts() {
    let g = network(5, &[(0, 1, 4), (1, 2, 4), (2, 3, 1)]);
    let mut seats: TextMap<u32> = TextMap::new();
    for (name, node) in [("a", 0), ("b", 2), ("c", 4), ("d", 2)] {
        seats.insert(name.to_owned(), node);
    }
    let relations = vec![
        street("b", "a", 3),
        street("a", "b", 7),
        street("a", "b", 5),
        street("a", "c", 1),
        street("b", "d", 1),
        street("a", "unknown", 1),
    ];
    let lines = build_streets(&relations, &seats, &g);
    let seen: Vec<(&str, &str, u32, &[u32])> = lines
        .iter()
        .map(|l| (l.from.as_str(), l.to.as_str(), l.edge_count, &l.nodes[..]))
        .collect();
    assert_eq!(seen, vec![("a", "b", 5, &[0, 1, 2][..]), ("b", "a", 3, &[2, 1, 0][..])]);
    let mut known = TextSet::new();
    known.insert("a".to_owned());
    known.insert("b".to_owned());
    let order = street_order(&relations, &known);
    assert_eq!(order.len(), 2);
    assert_eq!((order[0].from.as_str(), order[0].edge_count), ("a", 5));
    let report = street_diagnostics(5, &order);
    assert_eq!((report.hubs, report.isolated, report.widest), (2, 3, 5));
    assert!(build_streets(&vec![], &TextMap::new(), &network(0, &[])).is_empty());
}

#[test]
fn hosts_are_the_nearest_and_each_once() {
    let distance: Vec<i64> = (0..100).map(|i| (i * 37) % 100).collect();
    let found: Vec<u32> = (0..100).chain(0..50).collect();
    let near = near_hosts(&found, &distance);
    assert_eq!(near.len(), SEARCH_HOSTS);
    assert!(near.windows(2).all(|w| w[0] < w[1]));
    assert!(near.iter().all(|p| distance[*p as usize] < 32));
    assert_eq!(near_hosts(&vec![9, 3, 9], &distance), vec![3, 9]);
    assert_eq!(ascending_plots(&vec![5, 1, 5]), vec![1, 5]);
    assert_eq!(rank_by_distance(&vec![0, 1, 2], &vec![5, 7, 5], false), vec![0, 2, 1]);
    assert_eq!(rank_by_distance(&vec![0, 1, 2], &vec![5, 7, 5], true), vec![1, 0, 2]);
    assert_eq!(outermost(&vec![0, 1, 2], &vec![5, 7, 5], 2), vec![1, 0]);
}

#[test]
fn a_search_widens_in_strides() {
    let distance: Vec<i64> = (0..200).collect();
    let mut open = vec![true; 200];
    open[1] = false;
    let rim = rim_hosts(&open, &distance, &vec![0]);
    assert_eq!(rim[0], 2);
    assert_eq!(rim.len(), 198);
    let offers = far_offers(&rim, &distance, &vec![1, 10, 100]);
    assert_eq!(offers.len(), 3, "nothing lies within the first limit");
    assert_eq!(offers[0], (2..=10).collect::<Vec<u32>>());
    assert_eq!(offers[1][..3], [2, 6, 10]);
    assert_eq!(offers[2].len(), 29);
    assert_eq!(offers[2][1], 9);
    assert!(far_offers(&vec![], &distance, &vec![5]).is_empty());
}

#[test]
fn the_best_offer_wins_whatever_came_first() {
    let offers: [Offer; 4] = [(3, (5, 5)), (7, (2, 9)), (7, (2, 1)), (1, (0, 0))];
    for turn in 0..4 {
        let mut best: Option<Offer> = None;
        for k in 0..4 {
            let (score, at) = offers[(turn + k) % 4];
            accept(&mut best, score, at);
        }
        assert_eq!(best, Some((7, (2, 1))));
    }
    assert_eq!(nearest_birth(&vec![]), None);
    assert_eq!(nearest_birth(&vec![(4, 9), (2, 8), (2, 5), (3, 1)]), Some(5));
}

#[test]
fn enclosed_ground_stays_enclosed() {
    let mut open = vec![true, true, false, true];
    refresh_open(&mut open, &vec![0, 1, 2], &vec![true, false, true]);
    assert_eq!(open, vec![true, false, false, true]);
}

#[test]
fn a_causeway_walks_until_it_closes_or_gives_up() {
    let mut budget = 1;
    assert_eq!(causeway_next(false, true, false, &mut budget), Causeway::Step { closing: true });
    assert_eq!(budget, 0);
    assert_eq!(causeway_next(false, false, false, &mut budget), Causeway::GiveUp);
    assert_eq!(causeway_next(true, false, false, &mut budget), Causeway::Plant);
    budget = 3;
    assert_eq!(causeway_next(false, false, true, &mut budget), Causeway::GiveUp);
    assert_eq!(budget, 3);
}

#[test]
fn a_district_is_seated_on_the_nearest_ground_above_it() {
    let node = |parent: Option<u32>, children: Vec<u32>| Node {
        path: LogicalPath::root(),
        parent,
        children,
        own_files: 0,
        subtree_files: 0,
        own_oldest: 0,
        oldest: 0,
        industrial: false,
    };
    let t = Territory {
        nodes: vec![node(None, vec![1]), node(Some(0), vec![2]), node(Some(1), vec![])],
    };
    assert_eq!(district_seat(&t, &vec![vec![7], vec![], vec![]], 2), Some(0));
    assert_eq!(district_seat(&t, &vec![vec![7], vec![], vec![1]], 2), Some(2));
    assert_eq!(district_seat(&t, &vec![vec![], vec![], vec![]], 2), None);
}

fn lot(id: u32, block: u32, occupant: Option<&str>) -> Lot {
    Lot { id, block, occupant: occupant.map(lp) }
}

#[test]
fn a_vacated_lot_can_be_taken_again() {
    let mut lots = vec![lot(0, 0, Some("src/a.rs")), lot(1, 1, None)];
    assert_eq!(find_lot(&lots, &lp("src/a.rs")), Some(0));
    assert_eq!(count_vacant(&lots), 1);
    assert_eq!(vacate(&mut lots, &lp("src/a.rs")), Some(0));
    assert_eq!(vacate(&mut lots, &lp("src/a.rs")), None);
    assert_eq!(count_vacant(&lots), 2);
    assert!(lots[0].is_vacant());
    assert!(occupy(&mut lots, 0, &lp("src/b.rs")));
    assert!(!occupy(&mut lots, 0, &lp("src/c.rs")));
    assert_eq!(find_lot(&lots, &lp("src/b.rs")), Some(0));
    let blocks = vec![
        Block { id: 0, district: lp("src") },
        Block { id: 1, district: lp("src/deep") },
    ];
    let by_district = lots_by_district(&blocks, &lots);
    assert_eq!(by_district.get("src"), Some(&vec![0]));
    assert_eq!(host_candidates(&lp("src/deep/er"), &by_district), vec![1]);
    assert!(host_candidates(&lp("doc"), &by_district).is_empty());
}

#[test]
fn a_growth_step_says_what_happened() {
    let mut outcome = GrowthOutcome::new();
    assert!(outcome.is_empty());
    outcome.note_added(&lp("a.rs"), true, true);
    outcome.note_added(&lp("b.rs"), false, false);
    outcome.note_removed(true);
    outcome.note_changed(true);
    outcome.note_changed(false);
    assert_eq!((outcome.placed, outcome.vacated, outcome.updated), (1, 1, 1));
    assert_eq!(outcome.unplaced, vec![lp("b.rs")]);
    assert!(outcome.rebuild_required && !outcome.is_empty());
    assert_eq!(moved_nodes(&vec![(0, 0), (1, 1), (1, 1)], &vec![(1, 1), (2, 2)]), 2);
    assert_eq!(moved_nodes(&vec![(0, 0)], &vec![(0, 0)]), 0);
}

#[test]
fn only_unknown_seats_are_computed() {
    let asked = vec![true, false, true, true];
    let known = vec![false, false, true, false];
    assert_eq!(seats_to_compute(&asked, &known), vec![0, 3]);
    assert_eq!(
        merge_seats(&asked, &known),
        vec![Seat::Computed(0), Seat::Unasked, Seat::Known, Seat::Computed(1)]
    );
    assert_eq!(count_unbuilt(&asked, &vec![true, false, false, true]), 1);
}

#[test]
fn a_border_is_a_side_that_two_districts_share() {
    let rings = vec![
        vec![(0, 0), (2, 0), (2, 2), (0, 2)],
        vec![(2, 0), (4, 0), (4, 2), (2, 2)],
    ];
    let edges = vec![((2, 0), (2, 2)), ((0, 0), (2, 0))];
    let strangers = vec![lp("a"), lp("b")];
    let kin = vec![lp("a"), lp("a")];
    assert!(district_border_edges(&rings, &strangers, &edges)[0]);
    assert!(!district_border_edges(&rings, &kin, &edges)[0]);
}

#[test]
fn names_and_words_are_as_written() {
    assert_eq!(road_class_name(RoadClass::Arterial), "arterial");
    assert_eq!(roof_form_name(RoofForm::Pitched), "pitched");
    assert_eq!(entry_point_name(EntryPointKind::LibraryRoot), "library-root");
    assert_eq!(hex64(0), "0x0000000000000000");
    assert_eq!(hex64(0xdead_beef), "0x00000000deadbeef");
    assert_eq!(hex64(u64::MAX), "0xffffffffffffffff");
    let mut diff_lines = TextMap::new();
    diff_lines.insert("a.rs".to_owned(), 4);
    let inputs = LayoutInputs { diff_lines };
    assert_eq!(inputs.diff_lines_of(&lp("a.rs")), 4);
    assert_eq!(inputs.diff_lines_of(&lp("b.rs")), 0);
}

#[test]
fn a_hub_has_streets_to_a_quarter_of_the_others() {
    // Of the seven other districts a quarter is more than one.
    let one = vec![street("a", "b", 3)];
    let seen = street_diagnostics(8, &one);
    assert_eq!((seen.hubs, seen.isolated, seen.widest), (0, 6, 3));
    let two = vec![street("a", "b", 3), street("a", "c", 4)];
    let seen = street_diagnostics(8, &two);
    assert_eq!((seen.hubs, seen.isolated, seen.widest), (1, 5, 4));
    // There and back is one other district.
    let back = vec![street("a", "b", 3), street("b", "a", 3)];
    assert_eq!(street_diagnostics(8, &back).hubs, 0);
    let none = street_diagnostics(0, &vec![]);
    assert_eq!((none.hubs, none.isolated, none.widest), (0, 0, 0));
}

#[test]
fn the_order_of_relations_does_not_reach_the_streets() {
    // Two ways of the same cost, and roads that cost nothing.
    let g = network(6, &[(0, 3, 0), (3, 1, 0), (0, 4, 0), (4, 1, 0), (1, 2, 5), (5, 2, 5), (0, 5, 0)]);
    let mut seats: TextMap<u32> = TextMap::new();
    for (name, node) in [("a", 0), ("b", 1), ("c", 2)] {
        seats.insert(name.to_owned(), node);
    }
    let rows = [("a", "b", 2), ("b", "c", 1), ("a", "c", 4), ("c", "a", 9), ("a", "b", 7)];
    let told = |order: &[usize]| {
        let relations = order.iter().map(|i| street(rows[*i].0, rows[*i].1, rows[*i].2)).collect();
        build_streets(&relations, &seats, &g)
            .into_iter()
            .map(|l| (l.from.text, l.to.text, l.edge_count, l.nodes))
            .collect::<Vec<(String, String, u32, Vec<u32>)>>()
    };
    let first = told(&[0, 1, 2, 3, 4]);
    assert_eq!(first.len(), 4);
    assert_eq!((first[0].2, first[0].3.clone()), (2, vec![0, 3, 1]));
    assert_eq!(first, told(&[4, 3, 2, 1, 0]));
    assert_eq!(first, told(&[2, 0, 4, 1, 3, 0]));
}
