use imgsync::files::{Destination, FileGroup, FileInfo, PlanError};
use imgsync::pathmap::PathMap;
use imgsync::plan::{PassLabel, Plan};

fn info(path: &str, modified: i64, size: u64) -> FileInfo {
    FileInfo::from_parts(path.to_string(), modified, size, &None).unwrap()
}

#[test]
fn new_plan_is_empty() {
    let p = Plan::new(false);
    assert_eq!(p.len(), 0);
    assert!(!p.uses_first_moves());
    assert!(Plan::new(true).uses_first_moves());
}

#[test]
fn direct_plan_copies_from_sources() {
    let mut p = Plan::new(false);
    let a = info("/s/a.jpg", 1, 1);
    p.add_move(&a, "/d1/a.jpg");
    p.add_move(&a, "/d2/a.jpg");
    assert_eq!(p.len(), 2);
    assert_eq!(p.get_first_moves().len(), 0);
    let moves = p.get_secondary_moves();
    assert_eq!(moves.len(), 2);
    assert!(moves.iter().all(|(f, _)| f.path == "/s/a.jpg"));
    let passes = p.copy_passes();
    assert_eq!(passes.len(), 1);
    assert_eq!(passes[0].label, PassLabel::Only);
    assert_eq!(passes[0].jobs.len(), 2);
}

#[test]
fn first_dest_plan_copies_from_first_copy() {
    let mut p = Plan::new(true);
    let a = info("/s/a.jpg", 1, 1);
    p.add_move(&a, "/d1/a.jpg");
    assert_eq!(p.len(), 1);
    let passes = p.copy_passes();
    assert_eq!(passes.len(), 1);
    assert_eq!(passes[0].label, PassLabel::Only);
    assert_eq!(passes[0].jobs, vec![("/s/a.jpg".to_string(), "/d1/a.jpg".to_string())]);
    p.add_move(&a, "/d2/a.jpg");
    assert_eq!(p.len(), 2);
    let first = p.get_first_moves();
    assert_eq!(first.len(), 1);
    assert_eq!(first[0].1, "/d1/a.jpg");
    let second = p.get_secondary_moves();
    assert_eq!(second.len(), 1);
    assert_eq!(second[0].0.path, "/d1/a.jpg");
    assert_eq!(second[0].1, "/d2/a.jpg");
    let passes = p.copy_passes();
    assert_eq!(passes.len(), 2);
    assert_eq!(passes[0].label, PassLabel::First);
    assert_eq!(passes[1].label, PassLabel::Second);
    assert_eq!(passes[1].jobs, vec![("/d1/a.jpg".to_string(), "/d2/a.jpg".to_string())]);
}

#[test]
fn move_listing_is_sorted() {
    let mut p = Plan::new(true);
    p.add_move(&info("/s/b.jpg", 1, 1), "/d1/b.jpg");
    p.add_move(&info("/s/a.jpg", 2, 1), "/d1/a.jpg");
    p.add_move(&info("/s/a.jpg", 2, 1), "/d2/a.jpg");
    let listing = p.move_listing();
    assert_eq!(
        listing,
        vec![
            ("/d1/a.jpg".to_string(), "/d2/a.jpg".to_string()),
            ("/s/a.jpg".to_string(), "/d1/a.jpg".to_string()),
            ("/s/b.jpg".to_string(), "/d1/b.jpg".to_string()),
        ]
    );
}

fn dest(dir: &str) -> Destination {
    Destination { dir_pattern: dir.to_string(), file_pattern: "{name}{suffix}.{extensions}".to_string() }
}

#[test]
fn plan_moves_skips_existing_and_old_groups() {
    let mut existing: PathMap<FileInfo> = PathMap::new();
    existing.insert("/lib/b.jpg".to_string(), info("/lib/b.jpg", 200, 5));
    let sources = vec![vec![
        FileGroup { files: vec![info("/s/a.jpg", 100, 5)] },
        FileGroup { files: vec![info("/s/b.jpg", 200, 5)] },
        FileGroup { files: vec![info("/s/c.jpg", 300, 5), info("/s/c.xmp", 301, 1)] },
    ]];
    let mut plan = Plan::new(false);
    assert_eq!(dest("/lib").plan_moves(&mut plan, &sources, &mut existing), Ok(()));
    // a is no later than the cutoff set by b, which is already there.
    assert_eq!(plan.len(), 2);
    assert!(existing.contains_key("/lib/c.jpg"));
    assert!(existing.contains_key("/lib/c.xmp"));
    assert!(!existing.contains_key("/lib/a.jpg"));
    let listing = plan.move_listing();
    assert_eq!(listing[0], ("/s/c.jpg".to_string(), "/lib/c.jpg".to_string()));
}

#[test]
fn plan_moves_renames_on_conflict() {
    let mut existing: PathMap<FileInfo> = PathMap::new();
    existing.insert("/lib/a.jpg".to_string(), info("/lib/a.jpg", 999_999_999, 5));
    let sources = vec![vec![FileGroup { files: vec![info("/s/a.jpg", 100, 5)] }]];
    let mut plan = Plan::new(false);
    assert_eq!(dest("/lib").plan_moves(&mut plan, &sources, &mut existing), Ok(()));
    assert_eq!(plan.move_listing(), vec![("/s/a.jpg".to_string(), "/lib/a_1.jpg".to_string())]);
}

#[test]
fn plan_moves_to_two_destinations_via_first() {
    let sources = vec![vec![FileGroup { files: vec![info("/s/a.jpg", 100, 5)] }]];
    let mut existing: PathMap<FileInfo> = PathMap::new();
    let mut plan = Plan::new(true);
    assert_eq!(dest("/one").plan_moves(&mut plan, &sources, &mut existing), Ok(()));
    assert_eq!(dest("/two").plan_moves(&mut plan, &sources, &mut existing), Ok(()));
    let passes = plan.copy_passes();
    assert_eq!(passes.len(), 2);
    assert_eq!(passes[1].jobs, vec![("/one/a.jpg".to_string(), "/two/a.jpg".to_string())]);
}

#[test]
fn plan_moves_without_suffix_placeholder_fails() {
    let mut existing: PathMap<FileInfo> = PathMap::new();
    existing.insert("/lib/a.jpg".to_string(), info("/lib/a.jpg", 999_999_999, 5));
    let sources = vec![vec![FileGroup { files: vec![info("/s/a.jpg", 100, 5)] }]];
    let mut plan = Plan::new(false);
    let d = Destination { dir_pattern: "/lib".to_string(), file_pattern: "{name}.{extensions}".to_string() };
    assert_eq!(d.plan_moves(&mut plan, &sources, &mut existing), Err(PlanError::NoSuffixPlaceholder));
}

#[test]
fn plan_moves_with_bad_date_pattern_changes_nothing() {
    let mut existing: PathMap<FileInfo> = PathMap::new();
    let sources = vec![vec![FileGroup { files: vec![info("/s/a.jpg", 100, 5)] }]];
    let mut plan = Plan::new(false);
    let d = Destination { dir_pattern: "/lib/%Q".to_string(), file_pattern: "{name}".to_string() };
    assert_eq!(d.plan_moves(&mut plan, &sources, &mut existing), Err(PlanError::TimeFormat));
    assert_eq!(plan.len(), 0);
    assert_eq!(existing.len(), 0);
}

#[test]
fn same_outcome_with_or_without_first_copies() {
    let sources = vec![vec![
        FileGroup { files: vec![info("/s/a.jpg", 100, 5), info("/s/a.xmp", 101, 1)] },
        FileGroup { files: vec![info("/s/b.jpg", 200, 5)] },
    ]];
    let mut listings = Vec::new();
    for use_first in [false, true] {
        let mut existing: PathMap<FileInfo> = PathMap::new();
        let mut plan = Plan::new(use_first);
        dest("/one").plan_moves(&mut plan, &sources, &mut existing).unwrap();
        dest("/two").plan_moves(&mut plan, &sources, &mut existing).unwrap();
        let mut dests: Vec<String> = plan.move_listing().into_iter().map(|(_, d)| d).collect();
        dests.sort();
        listings.push(dests);
    }
    assert_eq!(listings[0], listings[1]);
    assert_eq!(listings[0].len(), 6);
}

#[test]
fn planning_twice_plans_nothing_new() {
    let sources = vec![vec![
        FileGroup { files: vec![info("/s/a.jpg", 100, 5), info("/s/a.xmp", 101, 1)] },
        FileGroup { files: vec![info("/s/b.jpg", 200, 5)] },
    ]];
    let mut existing: PathMap<FileInfo> = PathMap::new();
    existing.insert("/lib/b.jpg".to_string(), info("/lib/b.jpg", 7, 9));
    let mut plan = Plan::new(false);
    dest("/lib").plan_moves(&mut plan, &sources, &mut existing).unwrap();
    let first = plan.move_listing();
    assert_eq!(first.len(), 3);
    let known = existing.len();
    dest("/lib").plan_moves(&mut plan, &sources, &mut existing).unwrap();
    assert_eq!(plan.move_listing(), first);
    assert_eq!(existing.len(), known);
}

#[test]
fn distinct_requests_give_equal_counts() {
    let a = info("/s/a.jpg", 1, 1);
    let b = info("/s/b.jpg", 2, 1);
    let requests = [(&a, "/d1/a.jpg"), (&b, "/d1/b.jpg"), (&a, "/d2/a.jpg"), (&b, "/d2/b.jpg")];
    let mut counts = Vec::new();
    let mut dests = Vec::new();
    for use_first in [false, true] {
        let mut p = Plan::new(use_first);
        for (f, d) in requests.iter() {
            p.add_move(f, d);
        }
        counts.push(p.len());
        let mut ds: Vec<String> = p.move_listing().into_iter().map(|(_, d)| d).collect();
        ds.sort();
        dests.push(ds);
    }
    assert_eq!(counts, vec![4, 4]);
    assert_eq!(dests[0], dests[1]);
    assert_eq!(dests[0], vec!["/d1/a.jpg", "/d1/b.jpg", "/d2/a.jpg", "/d2/b.jpg"]);
}
