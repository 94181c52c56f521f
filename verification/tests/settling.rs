use polis::logical::LogicalPath;
use polis::settlement::{caps_for_file_count, growth_order, rung_of, FileRec, Rung, Settlement};
use polis::territory::{Node, Territory};
use polis::time::WallTime;
use polis::vicinity::{is_admissible, look_around, Vicinity};

fn lp(text: &str) -> LogicalPath {
    LogicalPath::new(text).expect("a valid path")
}

fn corpus(paths: &[&str]) -> Vec<FileRec> {
    paths
        .iter()
        .enumerate()
        .map(|(i, p)| FileRec {
            path: lp(p),
            size_bytes: 1_000 + (i as u64) * 37,
            growth_index: i as u32,
            added_at: WallTime::from_unix_millis(i as i64 * 1_000_000),
            industrial: p.starts_with("vendor/"),
            monument: false,
        })
        .collect()
}

/// The directories of some files, every one behind the one it lies in.
fn directories(files: &[FileRec]) -> Territory {
    let mut paths: Vec<String> = vec![String::new()];
    for f in files {
        let mut above = f.path.parent();
        while let Some(dir) = above {
            if !paths.contains(&dir.text) {
                paths.push(dir.text.clone());
            }
            above = dir.parent();
        }
    }
    paths.sort();
    let place = |text: &str| paths.iter().position(|p| p == text).expect("listed") as u32;
    let parent_of = |text: &str| LogicalPath::new(text).and_then(|p| p.parent()).map(|p| place(&p.text));
    let nodes = paths
        .iter()
        .enumerate()
        .map(|(i, p)| {
            let own: Vec<u32> = files
                .iter()
                .filter(|f| f.path.parent().map(|d| d.text) == Some(p.clone()))
                .map(|f| f.growth_index)
                .collect();
            Node {
                path: LogicalPath { text: p.clone() },
                parent: parent_of(p),
                children: (0..paths.len() as u32)
                    .filter(|c| parent_of(&paths[*c as usize]) == Some(i as u32))
                    .collect(),
                own_files: own.len() as u32,
                subtree_files: own.len() as u32,
                own_oldest: own.iter().copied().min().unwrap_or(u32::MAX),
                oldest: own.iter().copied().min().unwrap_or(u32::MAX),
                industrial: false,
            }
        })
        .collect();
    Territory { nodes }
}

/// The free places beside a plot, on ground of so many squares each way.
fn free_beside(pos: &[(i64, i64)], at: (i64, i64), size: i64) -> Vec<(i64, i64)> {
    [(1, 0), (0, 1), (-1, 0), (0, -1)]
        .iter()
        .map(|(dx, dy)| (at.0 + dx, at.1 + dy))
        .filter(|p| p.0.abs() <= size && p.1.abs() <= size)
        .filter(|p| {
            let near: Vec<(bool, i64)> = pos
                .iter()
                .map(|q| (false, (p.0 - q.0).pow(2) + (p.1 - q.1).pow(2)))
                .collect();
            look_around(&near, 1, 2).is_some()
        })
        .collect()
}

/// Where a plot of a district can go, and how: beside its own ground, else beside the
/// town, else on the edge.
fn search(s: &Settlement, pos: &[(i64, i64)], did: u32, size: i64) -> (Option<(i64, i64)>, Rung) {
    let own: Vec<(i64, i64)> =
        s.ground[did as usize].iter().map(|p| pos[*p as usize]).collect();
    let beside = |from: &[(i64, i64)]| {
        from.iter().flat_map(|at| free_beside(pos, *at, size)).next()
    };
    let (touching, near) = (beside(&own), beside(pos));
    let rung = rung_of(!own.is_empty(), touching.is_some(), near.is_some(), near.is_some());
    (touching.or(near), rung)
}

fn settle(paths: &[&str]) -> (Settlement, usize) {
    settle_on(paths, 50)
}

fn settle_on(paths: &[&str], size: i64) -> (Settlement, usize) {
    let files = corpus(paths);
    let territory = directories(&files);
    let caps = caps_for_file_count(files.len());
    let mut s = Settlement::new(territory.nodes.len());
    s.reserve_civic(territory.nodes[0].own_oldest);
    let mut pos = vec![(0, 0); s.plots.len()];
    let mut housed = 0;
    for f in growth_order(files) {
        let did = territory.district_of(&f.path);
        let (place, rung) = search(&s, &pos, did, size);
        let distance = vec![0; s.plots.len()];
        let birth = territory.nodes[did as usize].own_oldest;
        s.add_file(did, &distance, caps.rim, birth, rung, territory.nodes[0].own_oldest);
        if s.plots.len() > pos.len() {
            pos.push(place.unwrap_or((0, 0)));
        }
        housed += 1;
    }
    (s, housed)
}

fn sample_paths() -> Vec<&'static str> {
    vec![
        "README.md",
        "Cargo.toml",
        "src/lib.rs",
        "src/main.rs",
        "src/auth/session.rs",
        "src/auth/token.rs",
        "src/auth/oauth.rs",
        "src/net/server.rs",
        "src/net/client.rs",
        "docs/guide.md",
        "docs/api.md",
        "tests/it.rs",
        "vendor/blob.js",
        "vendor/other.js",
    ]
}

#[test]
fn every_file_gets_ground() {
    let (s, housed) = settle(&sample_paths());
    assert_eq!(housed, sample_paths().len());
    assert_eq!(s.file_plot.len(), housed);
    assert!(!s.plots.is_empty());
    for (i, &p) in s.file_plot.iter().enumerate() {
        assert!(
            s.plots[p as usize].files.contains(&(i as u32)),
            "file {i} is not in the plot it claims"
        );
    }
}

#[test]
fn every_placement_is_counted() {
    let (s, _) = settle(&sample_paths());
    assert_eq!(s.relaxed.detached, 0, "a plot was placed with no legal position at all");
    assert_eq!(
        s.relaxed.clean + s.relaxed.nonadjacent + s.relaxed.detached,
        s.plots.len(),
        "a plot was placed without being counted"
    );
    // On ground with room for one plot the rest fit nowhere, and are counted so.
    let (cramped, _) = settle_on(&sample_paths(), 0);
    assert_eq!(cramped.plots.len(), s.plots.len());
    assert_eq!(cramped.relaxed.detached + 1, cramped.plots.len());
}

#[test]
fn a_full_plot_pushes_the_district_outward() {
    let paths: Vec<String> = (0..12).map(|i| format!("pkg/f{i}.rs")).collect();
    let refs: Vec<&str> = paths.iter().map(String::as_str).collect();
    let (s, _) = settle(&refs);
    assert!(s.plots.len() > 1, "one plot held twelve files");
    for p in &s.plots {
        assert!(
            p.files.len() as u32 <= p.cap,
            "a plot holds {} files with capacity {}",
            p.files.len(),
            p.cap
        );
    }
}

#[test]
fn a_position_is_free_where_no_plot_is_too_near() {
    let near = vec![(false, 30), (true, 20), (false, 20), (true, 50), (false, 90)];
    assert_eq!(look_around(&near, 21, 60), None);
    let seen = look_around(&near, 20, 60);
    let want = Vicinity { nearest: Some(1), nearest_own: Some(1), own: 2, foreign: 2 };
    assert_eq!(seen, Some(want));
    let strangers = vec![(false, 7)];
    let alone = look_around(&strangers, 0, 5);
    assert_eq!(alone, Some(Vicinity { nearest: Some(0), nearest_own: None, own: 0, foreign: 0 }));
}

#[test]
fn the_order_of_looking_changes_nothing() {
    let near = vec![(false, 30), (true, 20), (false, 10), (true, 50)];
    let mut turned = near.clone();
    turned.reverse();
    let (a, b) = (look_around(&near, 0, 40), look_around(&turned, 0, 40));
    let (a, b) = (a.expect("free"), b.expect("free"));
    assert_eq!((a.own, a.foreign), (b.own, b.foreign));
    assert_eq!(near[a.nearest.expect("one")], turned[b.nearest.expect("one")]);
    assert_eq!(near[a.nearest_own.expect("one")], turned[b.nearest_own.expect("one")]);
}

#[test]
fn a_plot_reaches_the_town_and_touches_its_own_where_asked() {
    assert!(is_admissible(true, false, false, false));
    assert!(!is_admissible(false, false, false, true));
    assert!(is_admissible(false, true, true, true));
    assert!(!is_admissible(false, true, true, false));
}
