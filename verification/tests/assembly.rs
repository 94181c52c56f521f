use polis::age::{AgeRamp, AgeRampKind};
use polis::assembly::{
    assemble, lots_to_fit, plan_lots, raise_blocks, raise_buildings, City, Measured, Standing,
    Survey,
};
use polis::blocks::{Block, PlotSeat};
use polis::city::{count_vacant, LayoutInputs, Lot};
use polis::delta::RepoDelta;
use polis::growth::{changed_files, step, Fit};
use polis::landmarks::Candidate;
use polis::logical::LogicalPath;
use polis::ordered::{TextMap, TextSet};
use polis::planning::{newcomers, plan_city};
use polis::ranks::outer_thirds;
use polis::rng::FileClass;
use polis::settlement::{FileMeta, FileRec, Rung, Settlement};
use polis::streets::Street;
use polis::territory::{Node, Territory};
use polis::time::WallTime;
use polis::ways::Roads;

fn lp(text: &str) -> LogicalPath {
    LogicalPath::new(text).expect("a valid path")
}

fn meta(path: &str, size: u64, index: u32, class: FileClass) -> FileMeta {
    FileMeta {
        path: lp(path),
        size_bytes: size,
        growth_index: index,
        added_at: WallTime::from_unix_millis(i64::from(index) * 1_000),
        class,
    }
}

fn rec(path: &str, monument: bool) -> FileRec {
    FileRec {
        path: lp(path),
        size_bytes: 10,
        growth_index: 0,
        added_at: WallTime::from_unix_millis(0),
        industrial: false,
        monument,
    }
}

fn node(path: LogicalPath, parent: Option<u32>, children: Vec<u32>) -> Node {
    Node {
        path,
        parent,
        children,
        own_files: 1,
        subtree_files: 1,
        own_oldest: 0,
        oldest: 0,
        industrial: false,
    }
}

fn two_districts() -> Territory {
    Territory {
        nodes: vec![
            node(LogicalPath::root(), None, vec![1, 2]),
            node(lp("a"), Some(0), vec![]),
            node(lp("b"), Some(0), vec![]),
        ],
    }
}

fn lot(id: u32, occupant: Option<&str>) -> Lot {
    Lot { id, block: 0, occupant: occupant.map(lp) }
}

fn block_of(district: &str) -> Vec<Block> {
    vec![Block { id: 0, district: LogicalPath { text: district.to_string() } }]
}

fn set_of(texts: &[&str]) -> TextSet {
    let mut out = TextSet::new();
    for t in texts {
        out.insert(t.to_string());
    }
    out
}

fn delta(added: &[&str], removed: &[&str], resized: &[&str], retouched: &[&str]) -> RepoDelta {
    let all = |v: &[&str]| v.iter().map(|t| lp(t)).collect::<Vec<LogicalPath>>();
    RepoDelta {
        added: all(added),
        removed: all(removed),
        resized: all(resized),
        retouched: all(retouched),
    }
}

#[test]
fn members_can_be_taken_out_of_a_set() {
    let mut s = set_of(&["b", "a", "c"]);
    s.remove("b");
    s.remove("x");
    assert_eq!(s.len(), 2);
    assert!(s.contains("a") && !s.contains("b") && s.contains("c"));
}

#[test]
fn a_step_takes_away_then_rebuilds_then_settles() {
    let mut lots = vec![lot(0, Some("a/old.rs")), lot(1, Some("a/same.rs")), lot(2, Some("a/tall.rs"))];
    let mut standing = set_of(&["a/old.rs", "a/same.rs", "a/tall.rs"]);
    let d = delta(
        &["a/new.rs", "a/late.rs", "a/full.rs"],
        &["a/old.rs", "a/never.rs"],
        &["a/tall.rs", "a/same.rs"],
        &["a/same.rs", "a/ghost.rs"],
    );
    assert_eq!(changed_files(&d), vec![lp("a/ghost.rs"), lp("a/same.rs"), lp("a/tall.rs")]);
    let outcome = step(
        &block_of("a"),
        &mut lots,
        &mut standing,
        &d,
        &vec![Fit::Built, Fit::Built, Fit::Tight],
        &vec![Some(0), None, Some(1)],
        &vec![Fit::Built, Fit::Built, Fit::Built],
    );
    assert_eq!((outcome.placed, outcome.vacated, outcome.updated), (1, 1, 1));
    assert_eq!(outcome.unplaced, vec![lp("a/late.rs"), lp("a/full.rs")]);
    assert!(outcome.rebuild_required);
    assert_eq!(lots.len(), 3);
    assert_eq!(lots[0].occupant, Some(lp("a/new.rs")));
    assert!(standing.contains("a/new.rs") && standing.contains("a/same.rs"));
    assert!(!standing.contains("a/old.rs") && !standing.contains("a/tall.rs"));
}

#[test]
fn a_file_that_is_gone_leaves_a_vacant_lot() {
    let mut lots = vec![lot(0, Some("a.rs")), lot(1, Some("b.rs"))];
    let mut standing = set_of(&["a.rs", "b.rs"]);
    let d = delta(&[], &["a.rs"], &[], &[]);
    let outcome = step(&block_of(""), &mut lots, &mut standing, &d, &vec![], &vec![], &vec![]);
    assert_eq!(outcome.vacated, 1);
    assert!(!outcome.rebuild_required);
    assert_eq!((lots.len(), count_vacant(&lots)), (2, 1));
    assert_eq!(standing.len(), 1);
}

#[test]
fn a_file_without_a_known_shape_keeps_what_stands() {
    let mut lots = vec![lot(0, Some("a.rs"))];
    let mut standing = set_of(&["a.rs"]);
    let d = delta(&[], &[], &["a.rs"], &[]);
    let known = vec![Fit::Unknown];
    let outcome = step(&block_of(""), &mut lots, &mut standing, &d, &known, &vec![], &vec![]);
    assert!(outcome.is_empty());
    assert!(standing.contains("a.rs"));
}

#[test]
fn lots_ask_for_the_buildings_of_files_that_the_tree_has() {
    let files = vec![rec("a.rs", false), rec("b.rs", true), rec("gone.rs", false)];
    let mut tree: TextMap<FileClass> = TextMap::new();
    tree.insert("a.rs".to_string(), FileClass::Industrial);
    tree.insert("b.rs".to_string(), FileClass::Ordinary);
    let mut diff: TextMap<u32> = TextMap::new();
    diff.insert("a.rs".to_string(), 7);
    let parcels = vec![
        Survey { block: 3, occupant: Some(1) },
        Survey { block: 4, occupant: None },
        Survey { block: 5, occupant: Some(0) },
        Survey { block: 6, occupant: Some(2) },
    ];
    let inputs = LayoutInputs { diff_lines: diff };
    let (lots, asks) = plan_lots(&parcels, &files, &tree, &inputs, 99);
    assert_eq!(lots.iter().map(|l| l.id).collect::<Vec<u32>>(), vec![0, 1, 2, 3]);
    assert_eq!(lots[3].occupant, Some(lp("gone.rs")));
    let first = asks[0].as_ref().expect("asked");
    assert_eq!((first.class, first.lot, first.diff_lines), (FileClass::Monument, 0, 0));
    let third = asks[2].as_ref().expect("asked");
    assert_eq!((third.class, third.diff_lines, third.median_bytes), (FileClass::Industrial, 7, 99));
    assert!(asks[1].is_none() && asks[3].is_none());
    let known = vec![None, None, Some(true), None];
    assert_eq!(lots_to_fit(&asks, &known), vec![0]);
    let stood = raise_buildings(&asks, &known, &vec![false]);
    assert_eq!(stood.built, vec![false, false, true, false]);
    assert_eq!(stood.unbuilt, 1);
    assert!(stood.files.contains("a.rs") && !stood.files.contains("b.rs"));
}

fn plot(district: u32, block: u32, birth: u32) -> PlotSeat {
    PlotSeat { district, birth, block: Some(block), inside: true, depth: 5, industrial: false }
}

fn measured() -> Measured {
    Measured {
        slivers: 0,
        massed: 0,
        overflow: 0,
        road_nodes: 2,
        road_segments: 1,
        components: 1,
        cycles: 0,
        junctions: 2,
        complex_junctions: 0,
        dangling: 2,
        crossings: 0,
        shared_faces: 0,
        faceless_districts: 0,
        presplit_districts: 0,
        unhoused: 0,
        empty_cells: 0,
        age_gradient_x100: 100,
    }
}

fn small_city() -> City {
    let territory = two_districts();
    let raised = raise_blocks(
        vec![vec![0, 2], vec![1, 4], vec![6]],
        &vec![plot(1, 0, 0), plot(2, 1, 1)],
        &vec![false, false, false],
        &territory,
        &vec![false, true, true],
        &vec![None, None, None],
        4,
    );
    assert_eq!(raised.civic, Some(1));
    assert_eq!(raised.borders, vec![0, 1, 2]);
    assert_eq!(raised.off_face, 0);
    let mut settled = Settlement::new(3);
    settled.settle_born(1, 1, 0, Rung::Clean);
    let mut seats: TextMap<u32> = TextMap::new();
    seats.insert("a".to_string(), 0);
    seats.insert("b".to_string(), 1);
    let roads = Roads { ends: vec![(0, 1)], at: vec![vec![0], vec![0]], toll: vec![5] };
    assemble(
        &raised,
        vec![lot(0, Some("a/x.rs")), lot(1, None)],
        Standing { built: vec![true, false], files: set_of(&["a/x.rs"]), unbuilt: 0 },
        &territory,
        &vec![
            meta("a/x.rs", 5, 0, FileClass::Ordinary),
            meta("vendor/y.js", 9, 1, FileClass::Industrial),
        ],
        &vec![Candidate { path: lp("a/x.rs"), entry: None, inbound: 4, top_decile: true }],
        &vec![Street { from: lp("a"), to: lp("b"), edge_count: 3 }],
        &seats,
        &roads,
        &settled,
        &AgeRamp::unknown(),
        measured(),
    )
}

#[test]
fn a_city_is_put_together_from_its_parts() {
    let mut city = small_city();
    assert_eq!(city.blocks.len(), 3);
    assert_eq!(city.blocks[0].district, lp("a"));
    assert!(city.blocks[2].district.is_root());
    assert_eq!(city.districts, vec![(1, vec![0]), (2, vec![1])]);
    assert_eq!(city.streets.len(), 1);
    assert_eq!((city.streets[0].edge_count, city.streets[0].nodes.clone()), (3, vec![0, 1]));
    assert!(city.is_monument(&lp("a/x.rs")) && !city.is_monument(&lp("b/z.rs")));
    assert!(city.building(&lp("a/x.rs")));
    assert_eq!(city.host_of.get("a"), Some(&lp("a")));
    assert_eq!(city.industrial.len(), 1);
    assert_eq!((city.industrial[0].files, city.industrial[0].bytes), (1, 9));
    assert_eq!(city.industrial[0].host, lp("a"));
    let report = city.report;
    assert_eq!((report.files, report.buildings, report.blocks), (2, 1, 3));
    assert_eq!((report.open_blocks, report.lots, report.empty_lots), (1, 2, 1));
    assert_eq!((report.districts, report.fragmented_districts, report.plots), (2, 0, 1));
    assert_eq!((report.age_ramp, report.monuments), (AgeRampKind::Uniform, 1));
    assert_eq!((report.settled_on_fringe, report.relaxed_to_ancestor), (0, 0));
    let d = delta(&["a/w.rs"], &["a/x.rs"], &[], &[]);
    let outcome = city.grow(&d, &vec![], &vec![Some(1)], &vec![Fit::Built]);
    assert_eq!((outcome.placed, outcome.vacated), (1, 1));
    assert_eq!((city.report.buildings, city.report.empty_lots), (1, 1));
    assert!(!city.building(&lp("a/x.rs")) && city.building(&lp("a/w.rs")));
}

#[test]
fn a_plan_promotes_the_strongest_candidates() {
    let tree = vec![
        meta("a/x.rs", 0, 0, FileClass::Ordinary),
        meta("b/y.rs", 8, 1, FileClass::Ordinary),
    ];
    let anchors =
        vec![Candidate { path: lp("b/y.rs"), entry: None, inbound: 9, top_decile: false }];
    let plan = plan_city(&tree, &anchors);
    assert_eq!((plan.files[0].size_bytes, plan.files[0].monument), (1, false));
    assert!(plan.files[1].monument);
    assert_eq!((plan.caps.core, plan.caps.rim), (1, 2));
    assert_eq!(plan.ramp.len(), 2);
    assert_eq!(plan.demands.len(), 2);
    assert_eq!(plan.demands.get("a").map(|d| d.files), Some(1));
}

#[test]
fn newcomers_come_in_order_and_once() {
    let tree = vec![
        meta("b.rs", 3, 0, FileClass::Monument),
        meta("a.rs", 4, 1, FileClass::Ordinary),
    ];
    let taken = newcomers(&tree, &vec![lp("b.rs"), lp("none.rs"), lp("a.rs"), lp("b.rs")]);
    let paths: Vec<String> = taken.iter().map(|f| f.path.text.clone()).collect();
    assert_eq!(paths, vec!["a.rs".to_string(), "b.rs".to_string()]);
    assert!(!taken[0].monument && taken[1].monument);
}

#[test]
fn the_outer_thirds_are_the_nearest_and_the_farthest() {
    let keys: Vec<Option<(i64, i64)>> =
        vec![50, 10, 40, 20, 30, 60, 70].into_iter().map(|k| Some((k, 0))).collect();
    assert_eq!(outer_thirds(&keys), Some((vec![1, 3], vec![5, 6])));
    assert_eq!(outer_thirds(&keys[..5].to_vec()), None);
}

#[test]
fn remembered_buildings_change_nothing() {
    let files = vec![rec("a.rs", false), rec("b.rs", false)];
    let mut tree: TextMap<FileClass> = TextMap::new();
    tree.insert("a.rs".to_string(), FileClass::Ordinary);
    tree.insert("b.rs".to_string(), FileClass::Ordinary);
    let parcels =
        vec![Survey { block: 0, occupant: Some(0) }, Survey { block: 0, occupant: Some(1) }];
    let inputs = LayoutInputs { diff_lines: TextMap::new() };
    let (_, asks) = plan_lots(&parcels, &files, &tree, &inputs, 1);
    let cold = raise_buildings(&asks, &vec![None, None], &vec![true, false]);
    let warm = raise_buildings(&asks, &vec![Some(true), None], &vec![false]);
    assert_eq!(cold.built, warm.built);
    assert_eq!(cold.unbuilt, warm.unbuilt);
    assert_eq!((cold.files.len(), warm.files.len()), (1, 1));
}

#[test]
fn a_renamed_file_keeps_its_ground() {
    let mut lots = vec![lot(7, Some("src/old.rs"))];
    let mut standing = set_of(&["src/old.rs"]);
    let d = delta(&["src/new.rs"], &["src/old.rs"], &[], &[]);
    let (hosts, built) = (vec![Some(7)], vec![Fit::Built]);
    let outcome =
        step(&block_of("src"), &mut lots, &mut standing, &d, &vec![], &hosts, &built);
    assert_eq!((outcome.placed, outcome.vacated), (1, 1));
    assert!(outcome.unplaced.is_empty() && !outcome.rebuild_required);
    assert_eq!(lots[0].occupant, Some(lp("src/new.rs")));
}

#[test]
fn a_file_settles_only_where_its_district_offers() {
    let blocks = vec![
        Block { id: 0, district: lp("a") },
        Block { id: 1, district: lp("b") },
        Block { id: 2, district: LogicalPath::root() },
    ];
    let new = || {
        vec![
            Lot { id: 0, block: 0, occupant: None },
            Lot { id: 1, block: 1, occupant: None },
            Lot { id: 2, block: 2, occupant: None },
        ]
    };
    // Each case: the file, the lot chosen for it, and whether it settles there.
    let cases = [
        ("a/x.rs", 0, true),
        ("a/deep/er/x.rs", 0, true),
        ("a/x.rs", 1, false),
        ("a/x.rs", 2, false),
        ("c/x.rs", 2, true),
        ("x.rs", 2, true),
        ("x.rs", 9, false),
    ];
    for (path, host, settles) in cases {
        let mut lots = new();
        let mut standing = TextSet::new();
        let d = delta(&[path], &[], &[], &[]);
        let outcome = step(
            &blocks,
            &mut lots,
            &mut standing,
            &d,
            &vec![],
            &vec![Some(host)],
            &vec![Fit::Built],
        );
        assert_eq!(outcome.placed == 1, settles, "{path} on {host}");
        assert_eq!(standing.contains(path), settles);
        assert_eq!(count_vacant(&lots), if settles { 2 } else { 3 });
        assert_eq!(outcome.rebuild_required, !settles);
    }
}
