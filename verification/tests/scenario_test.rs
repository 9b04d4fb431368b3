use imgsync::files::{group_entries, Destination, FileInfo, FilePattern};
use imgsync::pathmap::PathMap;
use imgsync::plan::Plan;

// 2020-06-15T12:00:00Z: June 2020 in every time zone.
const JUNE_2020: i64 = 1_592_222_400_000_000_000;

#[test]
fn photos_section_copies_groups_into_dated_library() {
    let mut source = FilePattern {
        dir_pattern: "/Volumes/*/DCIM/*/".to_string(),
        file_regex: r"^\w+[.](?i:jpg|jpeg|png|cr2|cr3|arw|nef|dng|xmp)$".to_string(),
    };
    source.expand_paths("/home/u");
    let matcher = source.file_matcher();
    assert!(matcher.is_some());
    let entries = vec![
        ("/Volumes/card/DCIM/100CANON/IMG_0001.CR3".to_string(), JUNE_2020, 100),
        ("/Volumes/card/DCIM/100CANON/IMG_0001.xmp".to_string(), JUNE_2020 + 5_000_000_000, 2),
        ("/Volumes/card/DCIM/100CANON/IMG_0002.CR3".to_string(), JUNE_2020 + 60_000_000_000, 100),
        ("/Volumes/card/DCIM/100CANON/clip.mp4".to_string(), JUNE_2020, 1000),
    ];
    let groups = group_entries(entries, &matcher);
    assert_eq!(groups.len(), 2);

    let mut dest = Destination {
        dir_pattern: "~/Pictures/library/%Y/%b/".to_string(),
        file_pattern: "{parent}_{name}{suffix}.{extensions}".to_string(),
    };
    dest.expand_paths("/home/u");
    let mut existing: PathMap<FileInfo> = PathMap::new();
    let mut plan = Plan::new(false);
    dest.plan_moves(&mut plan, &[groups], &mut existing).unwrap();
    assert_eq!(plan.len(), 3);
    let listing = plan.move_listing();
    assert_eq!(
        listing[0],
        (
            "/Volumes/card/DCIM/100CANON/IMG_0001.CR3".to_string(),
            "/home/u/Pictures/library/2020/Jun/100CANON_IMG_0001.CR3".to_string()
        )
    );
    assert_eq!(listing[1].1, "/home/u/Pictures/library/2020/Jun/100CANON_IMG_0001.xmp");
    assert_eq!(listing[2].1, "/home/u/Pictures/library/2020/Jun/100CANON_IMG_0002.CR3");
}

#[test]
fn matching_file_is_not_copied_again() {
    let entries = vec![("/card/100/a.jpg".to_string(), 1_000_000_000, 7)];
    let groups = group_entries(entries, &None);
    let dest = Destination { dir_pattern: "/lib".to_string(), file_pattern: "{name}{suffix}.{extensions}".to_string() };
    let mut existing: PathMap<FileInfo> = PathMap::new();
    existing.insert(
        "/lib/a.jpg".to_string(),
        FileInfo::from_parts("/lib/a.jpg".to_string(), 1_000_000_001, 7, &None).unwrap(),
    );
    let mut plan = Plan::new(false);
    dest.plan_moves(&mut plan, &[groups], &mut existing).unwrap();
    assert_eq!(plan.len(), 0);
}

#[test]
fn sidecar_shares_suffix_with_its_image() {
    let entries = vec![
        ("/card/100/a.jpg".to_string(), 5_000_000_000, 7),
        ("/card/100/a.xmp".to_string(), 6_000_000_000, 1),
    ];
    let groups = group_entries(entries, &None);
    let dest = Destination { dir_pattern: "/lib".to_string(), file_pattern: "{name}{suffix}.{extensions}".to_string() };
    let mut existing: PathMap<FileInfo> = PathMap::new();
    existing.insert(
        "/lib/a.jpg".to_string(),
        FileInfo::from_parts("/lib/a.jpg".to_string(), 1, 7, &None).unwrap(),
    );
    let mut plan = Plan::new(false);
    dest.plan_moves(&mut plan, &[groups], &mut existing).unwrap();
    let dests: Vec<String> = plan.move_listing().into_iter().map(|(_, d)| d).collect();
    assert_eq!(dests, vec!["/lib/a_1.jpg".to_string(), "/lib/a_1.xmp".to_string()]);
}

#[test]
fn migrating_with_named_groups() {
    let mut source = FilePattern {
        dir_pattern: "~/Pictures/old_library/*/*/".to_string(),
        file_regex: r"^(?<parent>\w+)_(?<name>\w+)([.]\w+)+$".to_string(),
    };
    source.expand_paths("/home/u");
    assert_eq!(source.dir_pattern, "/home/u/Pictures/old_library/*/*/");
    let m = source.file_matcher();
    let entries = vec![("/home/u/Pictures/old_library/2020/Jun/DSC_0042.ARW".to_string(), JUNE_2020, 9)];
    let groups = group_entries(entries, &m);
    let dest = Destination {
        dir_pattern: "/new/%Y".to_string(),
        file_pattern: "{parent}_{name}{suffix}.{extensions}".to_string(),
    };
    let mut existing: PathMap<FileInfo> = PathMap::new();
    let mut plan = Plan::new(false);
    dest.plan_moves(&mut plan, &[groups], &mut existing).unwrap();
    assert_eq!(plan.move_listing()[0].1, "/new/2020/DSC_0042.ARW");
}
