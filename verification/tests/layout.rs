use polis::blocks::{
    assign, border_edges, civic_square, district_blocks, district_borders, face_districts,
    group_by_district, locate, publish, seat_unseated_districts, Block, BlockPlan, PlotSeat,
};
use polis::cell_map::CellMap;
use polis::delta::{
    canonical_order, merge_delta, DeformationLimiter, RepoDelta, CAMERA_STILL_MS, MAX_DEFERRALS,
    MAX_DEFERRED_CHANGES, MAX_TWEEN_MS, MIN_TWEEN_MS,
};
use polis::districts::links_to_keep;
use polis::edges::EdgeTable;
use polis::forest::DisjointSets;
use polis::founding::{founding_district, founding_packages, founding_plan, quarter_bounds, QUARTER_FILES};
use polis::heal::{heal_districts, healed};
use polis::landmarks::{
    ancestor_with_ground, build_host_of, industrial_masses, is_industrial_district,
    median_file_size, monument_marks, rank_monuments, Candidate, EntryPointKind, MAX_MONUMENTS,
};
use polis::logical::LogicalPath;
use polis::ordered::{TextMap, TextSet};
use polis::pieces::{fragmented, fragmented_subtrees, neighbour_pairs, pieces};
use polis::rng::{fnv1a64, mix64, roof_for, roof_for_class, FileClass, RoofForm, SeededRng};
use polis::settlement::{
    caps_for_file_count, demands, file_record, growth_order, reseated, rung_of, FileMeta, FileRec,
    Rung, Settlement,
};
use polis::territory::{common_depth, district_of, Node, Territory};
use polis::time::WallTime;

fn lp(s: &str) -> LogicalPath {
    LogicalPath::new(s).expect("a valid test path")
}

fn node(path: &str, parent: Option<u32>) -> Node {
    Node {
        path: if path.is_empty() {
            LogicalPath::root()
        } else {
            lp(path)
        },
        parent,
        children: Vec::new(),
        own_files: 1,
        subtree_files: 1,
        own_oldest: 0,
        oldest: 0,
        industrial: false,
    }
}

/// A root with `kids` children, which is enough tree for the ordering tests.
fn siblings(kids: u32) -> Territory {
    let mut t = Territory {
        nodes: vec![node("", None)],
    };
    for i in 0..kids {
        t.nodes.push(node(&format!("d{i}"), Some(0)));
        t.nodes[0].children.push(i + 1);
    }
    t
}

#[test]
fn a_district_is_the_parent_directory() {
    assert_eq!(district_of(&lp("src/auth/session.rs")), lp("src/auth"));
    assert_eq!(district_of(&lp("README.md")), LogicalPath::root());
}

#[test]
fn grouping_is_by_district_and_sorted() {
    let blocks = vec![
        Block { id: 2, district: lp("src") },
        Block { id: 0, district: lp("src") },
        Block { id: 1, district: lp("docs") },
    ];
    let grouped = group_by_district(&blocks);
    assert_eq!(grouped.get("src"), Some(&vec![0, 2]));
    assert_eq!(grouped.get("docs"), Some(&vec![1]));
    // The districts come out in path order every time.
    let order: Vec<&str> = (0..grouped.len()).map(|i| grouped.key_at(i).as_str()).collect();
    assert_eq!(order, vec!["docs", "src"]);
}

#[test]
fn the_kept_links_are_a_hierarchical_maximum_spanning_forest() {
    // Cells 0,1,2 of district 7 in a triangle (edges 0,1,2), cell 3 of the
    // neighbouring district 8 hanging off cell 0 (edge 3).
    let cell_edges = vec![vec![0, 2, 3], vec![0, 1], vec![1, 2], vec![3]];
    let district = vec![7, 7, 7, 8];
    let lengths = vec![3, 5, 4, 9];
    let t = siblings(9);
    let (mask, already) = links_to_keep(&cell_edges, &district, &t, &lengths);
    assert_eq!(already, 0);
    // Inside district 7, two of the three edges hold the triangle together
    // and the shortest — the one the collapse pass most wants — is left free.
    // Edge 3 is kept too, and only because it is what holds the two
    // districts' *parent* together; it is considered after every one of
    // district 7's own edges even though it is the longest of the four.
    assert_eq!(mask, vec![false, true, true, true], "{mask:?}");
}

#[test]
fn cells_that_never_touched_are_counted_as_already_split() {
    let cell_edges = vec![vec![0], vec![1]];
    let district = vec![7, 7];
    let t = siblings(9);
    let (mask, already) = links_to_keep(&cell_edges, &district, &t, &vec![1, 1]);
    assert_eq!(already, 1);
    assert_eq!(mask, vec![false, false]);
}

#[test]
fn a_group_of_one_block_is_one_piece() {
    // Two blocks of district 0 sharing edge 1, one block of district 1 apart.
    let half_edges = vec![vec![0, 2], vec![3, 4], vec![6]];
    let group = vec![Some(0), Some(0), Some(1)];
    let counts = pieces(&half_edges, &group);
    assert_eq!(counts, vec![(0, 1), (1, 1)]);
    assert_eq!(fragmented(&half_edges, &group), 0);
    // Break the shared edge: the two blocks of district 0 fall apart.
    let split = vec![vec![0], vec![4], vec![6]];
    assert_eq!(pieces(&split, &group)[0], (0, 2));
    assert_eq!(fragmented(&split, &group), 1);
}

#[test]
fn neighbours_share_an_edge_from_both_sides() {
    let mut pairs = neighbour_pairs(&vec![vec![0, 2], vec![1, 5], vec![4]]);
    pairs.dedup();
    assert_eq!(pairs, vec![(0, 1), (1, 2)]);
    let t = siblings(3);
    let half_edges = vec![vec![0], vec![1, 2], vec![3]];
    let group = vec![Some(1), Some(2), Some(1)];
    assert_eq!(fragmented(&half_edges, &group), 1);
    assert_eq!(fragmented_subtrees(&half_edges, &group, &t), 1);
    let whole = vec![Some(1), Some(1), Some(2)];
    assert_eq!(fragmented_subtrees(&half_edges, &whole, &t), 0);
}

#[test]
fn a_stray_piece_joins_the_ground_around_it() {
    let t = siblings(3);
    // A row of blocks of districts 1, 2, 1: the younger piece of district 1 is cut off.
    let half_edges = vec![vec![0], vec![1, 2], vec![3]];
    let district = vec![Some(1), Some(2), Some(1)];
    let out = healed(&half_edges, &vec![5, 6, 9], &district, &t);
    assert_eq!(out, vec![Some(1), Some(2), Some(2)]);
    let mut plans: Vec<BlockPlan> = (0..3)
        .map(|i| BlockPlan {
            district: district[i],
            plots: Vec::new(),
            open: true,
            industrial: false,
            half_edges: half_edges[i].clone(),
            birth: [5, 6, 9][i],
        })
        .collect();
    heal_districts(&mut plans, &t);
    let districts: Vec<Option<u32>> = plans.iter().map(|p| p.district).collect();
    assert_eq!(districts, out);
    assert_eq!(fragmented(&half_edges, &districts), 0);
}

#[test]
fn a_stray_piece_stays_in_its_package_with_the_neighbour_it_borders_most() {
    let dir = |path: &str, parent: Option<u32>, children: Vec<u32>| Node {
        path: LogicalPath { text: path.to_owned() },
        parent,
        children,
        own_files: 1,
        subtree_files: 1,
        own_oldest: 0,
        oldest: 0,
        industrial: false,
    };
    let t = Territory {
        nodes: vec![
            dir("", None, vec![1, 2]),
            dir("a", Some(0), vec![3, 6]),
            dir("b", Some(0), vec![]),
            dir("a/x", Some(1), vec![4, 5]),
            dir("a/x/p", Some(3), vec![]),
            dir("a/x/q", Some(3), vec![]),
            dir("a/z", Some(1), vec![]),
        ],
    };
    // The stray borders one block of a/x/q, two of a/z and three of b.
    let half_edges = vec![
        vec![12],
        vec![0, 2, 4, 6, 8, 10],
        vec![1],
        vec![3],
        vec![5],
        vec![7],
        vec![9],
        vec![11],
    ];
    let district: Vec<Option<u32>> = [4, 4, 5, 6, 6, 2, 2, 2].into_iter().map(Some).collect();
    let out = healed(&half_edges, &vec![0, 9, 9, 9, 9, 9, 9, 9], &district, &t);
    assert_eq!(out[0], Some(4), "the oldest piece stays");
    assert_eq!(out[1], Some(6));
}

#[test]
fn a_sweep_that_moves_anything_leaves_fewer_pieces() {
    let t = siblings(3);
    let total = |edges: &Vec<Vec<usize>>, district: &Vec<Option<u32>>| -> usize {
        pieces(edges, district).iter().map(|(_, n)| *n).sum()
    };
    // A row of seven blocks: every second one is a stray of one of two districts.
    let edges: Vec<Vec<usize>> = (0..7usize)
        .map(|i| {
            let mut sides = vec![2 * i];
            if i > 0 {
                sides.push(2 * (i - 1) + 1);
            }
            sides
        })
        .collect();
    let before: Vec<Option<u32>> = [1, 2, 1, 2, 1, 3, 1].into_iter().map(Some).collect();
    let after = healed(&edges, &vec![0, 1, 2, 3, 4, 5, 6], &before, &t);
    assert_ne!(after, before);
    assert_eq!(total(&edges, &before), 7);
    assert!(total(&edges, &after) < 7);
    assert_eq!(after[0], Some(1));
    let again = healed(&edges, &vec![0, 1, 2, 3, 4, 5, 6], &after, &t);
    assert_eq!(total(&edges, &again) < total(&edges, &after), again != after);
}

fn seat(district: u32, birth: u32, block: Option<u32>, depth: i64) -> PlotSeat {
    PlotSeat { district, birth, block, inside: true, depth, industrial: false }
}

#[test]
fn a_block_belongs_to_the_most_of_its_plots() {
    let found = face_districts(
        &vec![Some(0), Some(0), Some(0), Some(2), None],
        &vec![4, 5, 5, 9, 9],
        3,
    );
    assert_eq!(found, vec![Some(5), None, Some(9)]);
    let plots = vec![seat(0, 3, Some(0), 5), seat(0, 2, Some(0), 4), seat(1, 8, Some(1), 3)];
    let (plans, off) = assign(vec![vec![0], vec![1, 2], vec![3]], &plots, &vec![false; 2]);
    assert_eq!(off, 0);
    let districts: Vec<Option<u32>> = plans.iter().map(|p| p.district).collect();
    assert_eq!(districts[..2], [Some(0), Some(1)]);
    assert_eq!(plans[0].birth, 2);
    assert_eq!(plans[0].plots, vec![0, 1]);
    assert!(plans[2].open && !plans[0].open);
    let t = siblings(2);
    let published = publish(&plans, &t);
    assert_eq!(published[1].id, 1);
    assert_eq!(published[1].district, lp("d0"));
    assert_eq!(published[0].district, LogicalPath::root());
}

#[test]
fn a_district_without_a_block_is_given_one() {
    // Both blocks belong to district 0; district 1 has a plot in the second.
    let plots = vec![seat(0, 0, Some(0), 1), seat(0, 0, Some(1), 1), seat(1, 0, Some(1), 9)];
    let mut cur = vec![Some(0), Some(0)];
    seat_unseated_districts(&mut cur, &plots, 2);
    assert_eq!(cur, vec![Some(0), Some(1)]);
}

#[test]
fn borders_run_between_districts() {
    // Edge 0 between blocks of one district, edge 1 between two, edge 2 at the rim.
    let faces = vec![vec![0, 2], vec![1], vec![3, 4]];
    let districts = vec![Some(1), Some(1), Some(2)];
    assert_eq!(border_edges(&faces, &districts, 3), vec![false, true, true]);
    let ends = district_borders(&faces, &districts, 3);
    assert_eq!(ends, vec![1, 2]);
}

#[test]
fn a_point_is_in_the_first_block_that_holds_it() {
    let holds = vec![false, true, true, false];
    let far = vec![Some(5), Some(9), Some(9), Some(5)];
    assert_eq!(locate(&vec![3, 2, 1], &holds, &far), Some(1));
    assert_eq!(locate(&vec![3], &holds, &far), Some(0));
    assert_eq!(locate(&vec![], &vec![false; 2], &vec![None, Some(7)]), Some(1));
    assert_eq!(locate(&vec![], &vec![], &vec![]), None);
    assert_eq!(civic_square(&holds, &far), Some(1));
    assert_eq!(civic_square(&vec![false; 4], &far), Some(0));
}

#[test]
fn blocks_are_listed_under_their_districts() {
    let plan = |district: Option<u32>| BlockPlan {
        district,
        plots: Vec::new(),
        open: false,
        industrial: false,
        half_edges: Vec::new(),
        birth: 0,
    };
    let plans = vec![plan(Some(7)), plan(None), plan(Some(3)), plan(Some(7))];
    assert_eq!(district_blocks(&plans), vec![(3, vec![2]), (7, vec![0, 3])]);
}

#[test]
fn edges_know_the_two_cells_beside_them() {
    let table = EdgeTable::build(&vec![vec![0, 2], vec![0, 1], vec![1, 2, 2]], false);
    assert_eq!(table.pair(0), Some((0, 1, false)));
    assert_eq!(table.pair(7), None);
}

#[test]
fn joined_sets_have_one_head() {
    let mut sets = DisjointSets::new(5);
    assert!(sets.join(0, 1));
    assert!(sets.join(3, 4));
    assert!(!sets.join(1, 0));
    assert_eq!(sets.find(0), sets.find(1));
    assert_ne!(sets.find(1), sets.find(3));
    assert!(sets.join(1, 4));
    assert_eq!(sets.find(0), sets.find(3));
}

#[test]
fn directories_meet_where_their_paths_part() {
    let mut t = siblings(2);
    t.nodes.push(node("d0/x", Some(1)));
    t.nodes[1].children.push(3);
    t.nodes.push(node("d0/y", Some(1)));
    t.nodes[1].children.push(4);
    let depth = t.depths();
    assert_eq!(depth, vec![0, 1, 1, 2, 2]);
    assert_eq!(common_depth(&t, &depth, 3, 4), 1);
    assert_eq!(common_depth(&t, &depth, 3, 2), 0);
    assert_eq!(common_depth(&t, &depth, 3, 3), u32::MAX);
    assert_eq!(t.get(&lp("d0/y")), Some(4));
    assert_eq!(t.district_of(&lp("d0/y/z/file.rs")), 4);
    assert_eq!(t.district_of(&lp("elsewhere/file.rs")), 0);
    assert_eq!(t.package_of(), vec![0, 1, 2, 1, 1]);
}

#[test]
fn the_deformation_limiter_batches_and_tweens() {
    let mut limiter = DeformationLimiter::new();
    let delta = || RepoDelta {
        added: vec![lp("a.rs")],
        ..RepoDelta::default()
    };
    assert!(!limiter.submit(delta(), 0));
    assert!(limiter.deferrals() > 0);
    assert!(limiter.submit(delta(), CAMERA_STILL_MS));
    assert!(limiter.tween() >= MIN_TWEEN_MS);
    let batch = limiter.take_pending();
    assert_eq!(batch.added.len(), 1);
    assert!(limiter.is_empty());
}

#[test]
fn no_batch_is_put_off_forever() {
    let mut limiter = DeformationLimiter::new();
    let mut rounds = 0;
    while !limiter.submit(RepoDelta { resized: vec![lp("a.rs")], ..RepoDelta::default() }, 0) {
        rounds += 1;
        assert!(rounds <= MAX_DEFERRALS);
    }
    let mut limiter = DeformationLimiter::new();
    let many: Vec<LogicalPath> = (0..=MAX_DEFERRED_CHANGES).map(|i| lp(&format!("f{i}.rs"))).collect();
    assert!(limiter.submit(RepoDelta { added: many, ..RepoDelta::default() }, 0));
    assert!(limiter.tween() <= MAX_TWEEN_MS);
    assert!(!limiter.pending().is_empty());
}

#[test]
fn a_file_that_comes_and_goes_leaves_no_change() {
    let mut into = RepoDelta { added: vec![lp("a.rs")], ..RepoDelta::default() };
    merge_delta(&mut into, RepoDelta { removed: vec![lp("a.rs")], ..RepoDelta::default() });
    assert!(into.is_empty(), "{into:?}");
    let mut into = RepoDelta { resized: vec![lp("b.rs")], ..RepoDelta::default() };
    merge_delta(
        &mut into,
        RepoDelta { resized: vec![lp("b.rs"), lp("a.rs")], ..RepoDelta::default() },
    );
    assert_eq!(into.resized, vec![lp("a.rs"), lp("b.rs")]);
    assert_eq!(
        canonical_order(&vec![lp("b"), lp("a"), lp("b")]),
        vec![lp("a"), lp("b")]
    );
}

fn even(i: usize) -> WallTime {
    WallTime::from_unix_millis(1_500_000_000_000 + i as i64 * 86_400_000)
}

fn corpus(paths: &[&str]) -> Vec<FileRec> {
    paths
        .iter()
        .enumerate()
        .map(|(i, p)| FileRec {
            path: lp(p),
            size_bytes: 900 + (i as u64) * 41,
            growth_index: u32::try_from(i).expect("small"),
            added_at: even(i),
            industrial: p.starts_with("vendor/"),
            monument: false,
        })
        .collect()
}

fn deep_tree() -> Vec<&'static str> {
    vec![
        "README.md",
        "core/lib.rs",
        "core/util.rs",
        "web/a.ts",
        "web/adapters/b.ts",
        "web/adapters/server/c.ts",
        "web/adapters/server/retry/d.ts",
        "web/adapters/server/retry/policy/e.ts",
        "web/adapters/server/retry/policy/hasher/f0.ts",
        "web/adapters/server/retry/policy/hasher/f1.ts",
        "web/adapters/server/retry/policy/hasher/f2.ts",
        "web/adapters/server/retry/policy/hasher/f3.ts",
        "web/adapters/server/retry/policy/hasher/f4.ts",
        "web/adapters/server/retry/policy/hasher/f5.ts",
        "web/adapters/server/retry/policy/hasher/f6.ts",
        "web/adapters/server/retry/policy/hasher/f7.ts",
        "docs/guide.md",
        "vendor/blob.js",
        "vendor/other.js",
    ]
}

#[test]
fn demands_do_not_depend_on_the_order_the_files_arrived_in() {
    let files = corpus(&deep_tree());
    let forward = demands(&files);
    let mut shuffled = files;
    shuffled.reverse();
    shuffled.rotate_left(5);
    let backward = demands(&shuffled);
    assert_eq!(forward.len(), backward.len());
    for i in 0..forward.len() {
        assert_eq!(forward.key_at(i), backward.key_at(i));
        assert_eq!(forward.value_at(i).oldest, backward.value_at(i).oldest);
        assert_eq!(forward.value_at(i).files, backward.value_at(i).files);
    }
    assert_eq!(forward.get("core").map(|d| (d.oldest, d.files)), Some((1, 2)));
}

#[test]
fn files_grow_in_order_of_index_and_path() {
    let mut files = corpus(&["b.rs", "a.rs", "c.rs"]);
    files[0].growth_index = 1;
    files[1].growth_index = 1;
    files[2].growth_index = 0;
    let order: Vec<LogicalPath> = growth_order(files).into_iter().map(|f| f.path).collect();
    assert_eq!(order, vec![lp("c.rs"), lp("a.rs"), lp("b.rs")]);
    let meta = FileMeta {
        path: lp("x.rs"),
        size_bytes: 0,
        growth_index: 4,
        added_at: even(4),
        class: FileClass::Industrial,
    };
    let rec = file_record(&meta, true);
    assert!(rec.industrial && rec.monument);
    assert_eq!(rec.size_bytes, 1);
}

#[test]
fn every_file_gets_a_plot_and_every_plot_is_counted() {
    let mut s = Settlement::new(3);
    let first = s.add_file(1, &vec![0], 2, 10, Rung::Clean, 4);
    assert_eq!(first, 0);
    assert_eq!(s.plots.len(), 2, "the open plot at the centre comes first");
    let open = &s.plots[0];
    assert_eq!((open.district, open.cap, open.birth, open.files.len()), (0, 0, 4, 0));
    let plot = s.file_plot[0];
    assert_eq!(plot, 1);
    s.add_file(1, &vec![0, 0], 2, 10, Rung::Clean, 4);
    assert_eq!(s.file_plot, vec![1, 1], "there was room");
    s.add_file(1, &vec![0, 0], 2, 10, Rung::Anywhere, 4);
    s.add_file(2, &vec![0, 0, 0], 1, 11, Rung::Nonadjacent, 4);
    assert_eq!(s.file_plot, vec![1, 1, 2, 3]);
    assert_eq!(s.plots[2].files, vec![2]);
    assert_eq!(s.ground, vec![vec![0], vec![1, 2], vec![3]]);
    let r = s.relaxed;
    assert_eq!(r.clean + r.nonadjacent + r.anywhere + r.detached, s.plots.len());
    assert_eq!((r.clean, r.nonadjacent, r.anywhere), (2, 1, 1));
    assert_eq!(s.pick_plot(1, &vec![9, 5, 4, 3]), Some(2));
    assert_eq!(s.pick_plot(2, &vec![9, 5, 4, 3]), None);
    assert_eq!(rung_of(true, true, true, true), Rung::Clean);
    assert_eq!(rung_of(false, false, true, true), Rung::Clean);
    assert_eq!(rung_of(true, false, true, true), Rung::Nonadjacent);
    assert_eq!(rung_of(true, false, false, true), Rung::Anywhere);
    assert_eq!(rung_of(true, false, false, false), Rung::Detached);
    assert_eq!(reseated(&vec![1, 0, 1], 3), vec![vec![1], vec![0, 2], vec![]]);
    assert_eq!(caps_for_file_count(399).rim, 2);
    assert_eq!(caps_for_file_count(400).rim, 5);
    assert_eq!(caps_for_file_count(2_000).rim, 9);
}

#[test]
fn big_packages_found_quarters() {
    let mut t = siblings(3);
    for (i, files) in [(1usize, 40u32), (2, 3), (3, 20)] {
        t.nodes[i].own_files = files;
        t.nodes[i].subtree_files = files;
        t.nodes[i].oldest = 100 - i as u32;
        t.nodes[i].own_oldest = 100 - i as u32;
    }
    t.nodes[0].subtree_files = 64;
    assert_eq!(quarter_bounds(0), (QUARTER_FILES, 0));
    assert_eq!(quarter_bounds(125), (QUARTER_FILES, 33));
    assert_eq!(quarter_bounds(7_014), (84, 1_824));
    let quarters = founding_packages(&t, QUARTER_FILES, 60);
    assert_eq!(quarters, vec![(3, 3), (1, 1)], "the oldest first, the small one left out");
    assert_eq!(founding_district(&t, 1), 1);
    let plan = founding_plan(&t, &quarters, &t.package_of());
    assert_eq!(plan.len(), 2);
    assert_eq!((plan[0].package, plan[0].seat, plan[0].born, plan[0].kin), (3, 3, 97, 3));
    assert!(founding_plan(&t, &vec![(1, 1)], &t.package_of()).is_empty());
}

#[test]
fn a_quarter_is_as_old_as_its_oldest_file() {
    // The second package has files of its own, and older ones in a directory inside it.
    let mut t = siblings(2);
    t.nodes.push(node("d1/old", Some(2)));
    t.nodes[2].children.push(3);
    for (i, own, all, own_oldest, oldest) in
        [(1usize, 30u32, 30u32, 50u32, 50u32), (2, 20, 40, 90, 10), (3, 20, 20, 10, 10)]
    {
        t.nodes[i].own_files = own;
        t.nodes[i].subtree_files = all;
        t.nodes[i].own_oldest = own_oldest;
        t.nodes[i].oldest = oldest;
    }
    assert_eq!(founding_district(&t, 2), 3);
    assert_eq!(founding_packages(&t, QUARTER_FILES, 60), vec![(2, 3), (1, 1)]);
}

#[test]
fn cells_keep_what_is_put_into_them() {
    let mut map = CellMap::new();
    for i in 0..500u32 {
        let k = ((i % 23) as i32 - 11, (i % 7) as i32 - 3);
        map.push(k, i);
    }
    for x in -12..13 {
        for y in -4..5 {
            let want: Vec<u32> = (0..500u32)
                .filter(|i| ((i % 23) as i32 - 11, (i % 7) as i32 - 3) == (x, y))
                .collect();
            match map.get((x, y)) {
                Some(v) => assert_eq!(v, &want),
                None => assert!(want.is_empty()),
            }
        }
    }
    let near: Vec<u32> = (0..500u32)
        .filter(|i| {
            let (x, y) = ((i % 23) as i32 - 11, (i % 7) as i32 - 3);
            (x - 2).abs() <= 1 && (y + 1).abs() <= 1
        })
        .collect();
    assert_eq!(map.query((2, -1), 1), near);
    assert_ne!(CellMap::hash((1, 2)), CellMap::hash((2, 1)));
}

#[test]
fn more_room_moves_nothing() {
    let mut map = CellMap::new();
    for i in 0..9u32 {
        map.push((i as i32, -(i as i32)), i);
    }
    for _ in 0..3 {
        map.grow();
        for i in 0..9u32 {
            assert_eq!(map.get((i as i32, -(i as i32))), Some(&vec![i]));
        }
        assert_eq!(map.get((9, 9)), None);
    }
    map.push((0, 0), 40);
    assert_eq!(map.get((0, 0)), Some(&vec![0, 40]));
}

#[test]
fn what_is_found_is_its_own_root() {
    let mut sets = DisjointSets::new(6);
    for (a, b) in [(0, 1), (2, 3), (1, 3), (4, 5)] {
        assert!(sets.join(a, b));
    }
    assert!(!sets.join(0, 2));
    for x in 0..6 {
        let root = sets.find(x);
        assert_eq!(sets.find(root), root);
    }
    assert_eq!(sets.find(0), sets.find(3));
    assert_ne!(sets.find(0), sets.find(4));
}

#[test]
fn landmarks_are_ranked_and_hosted() {
    let candidate = |p: &str, entry, inbound, top_decile| Candidate {
        path: lp(p),
        entry,
        inbound,
        top_decile,
    };
    let candidates = vec![
        candidate("a.rs", None, 9, true),
        candidate("b.rs", Some(EntryPointKind::Main), 1, false),
        candidate("c.rs", None, 3, false),
    ];
    let ranked = rank_monuments(&candidates);
    assert!(ranked.contains("a.rs") && ranked.contains("b.rs"));
    let mut placed = TextSet::new();
    placed.insert("b.rs".to_owned());
    let marks = monument_marks(&candidates, &placed);
    assert_eq!(marks.len(), 1);
    assert_eq!(marks[0].path, lp("b.rs"));
    assert!(marks.len() <= MAX_MONUMENTS);
    let mut ground = TextSet::new();
    ground.insert("src".to_owned());
    assert_eq!(ancestor_with_ground(&lp("src/a/b"), &ground), Some(lp("src")));
    assert_eq!(ancestor_with_ground(&lp("doc"), &ground), None);
    let meta = |p: &str, class| FileMeta {
        path: lp(p),
        size_bytes: 10,
        growth_index: 0,
        added_at: even(0),
        class,
    };
    let files = vec![
        meta("src/lib.rs", FileClass::Ordinary),
        meta("src/vendor/x.js", FileClass::Industrial),
        meta("src/vendor/y.js", FileClass::Industrial),
    ];
    let hosts = build_host_of(&files, &ground);
    let masses = industrial_masses(&files, &hosts, &ground, &None);
    assert_eq!(masses.len(), 1);
    assert_eq!((masses[0].files, masses[0].bytes), (2, 20));
    assert_eq!(masses[0].district, lp("src/vendor"));
    assert_eq!(masses[0].host, lp("src"));
    assert!(is_industrial_district(&files, &lp("src/vendor")));
    assert!(!is_industrial_district(&files, &lp("src")));
    let sizes = corpus(&["a.rs", "b.rs", "c.rs"]);
    assert_eq!(median_file_size(&sizes), 941);
}

#[test]
fn draws_come_from_the_path_and_the_purpose() {
    assert_eq!(fnv1a64(b""), 0xcbf2_9ce4_8422_2325);
    assert_eq!(fnv1a64(b"a"), 0xaf63_dc4c_8601_ec8c);
    assert_ne!(mix64(1), mix64(2));
    let mut a = SeededRng::for_path(&lp("src/lib.rs"), "roof");
    let mut b = SeededRng::for_path(&lp("src/lib.rs"), "roof");
    let mut c = SeededRng::for_path(&lp("src/lib.rs"), "rotation");
    let first = a.next_u64();
    assert_eq!(first, b.next_u64());
    assert_ne!(first, c.next_u64());
    for _ in 0..50 {
        assert!(a.below(3) < 3);
    }
    assert_eq!(roof_for(&lp("src/lib.rs")), roof_for(&lp("src/lib.rs")));
    assert_eq!(
        roof_for_class(&lp("src/lib.rs"), FileClass::Monument),
        RoofForm::Stepped
    );
    assert_eq!(
        roof_for_class(&lp("src/lib.rs"), FileClass::Ordinary),
        roof_for(&lp("src/lib.rs"))
    );
}

#[test]
fn maps_are_walked_in_the_order_of_their_keys() {
    let mut map: TextMap<u32> = TextMap::new();
    assert!(map.is_empty());
    for (k, v) in [("b", 1), ("a", 2), ("é", 3), ("b", 4)] {
        map.insert(k.to_owned(), v);
    }
    assert_eq!(map.len(), 3);
    assert_eq!(map.get("b"), Some(&4));
    assert!(map.contains_key("é") && !map.contains_key("c"));
    let keys: Vec<&str> = (0..3).map(|i| map.key_at(i).as_str()).collect();
    assert_eq!(keys, vec!["a", "b", "é"]);
    assert_eq!(*map.value_at(1), 4);
    let mut set = TextSet::new();
    assert!(set.last().is_none());
    assert!(set.insert("x".to_owned()) && !set.insert("x".to_owned()));
    assert_eq!((set.len(), set.at(0).as_str()), (1, "x"));
}
