use imgsync::files::{
    file_prefix_of, get_groups, group_entries, Destination, FileFormatArgs, FileGroup, FileInfo,
    FilePattern, GroupLayout, PlanError,
};
use imgsync::pathmap::PathMap;

fn info(path: &str, modified: i64, size: u64) -> FileInfo {
    FileInfo::from_parts(path.to_string(), modified, size, &None).unwrap()
}

fn matcher(re: &str) -> Option<imgsync::matcher::FileMatcher> {
    FilePattern { dir_pattern: String::new(), file_regex: re.to_string() }.file_matcher()
}

#[test]
fn format_args_split_at_first_dot() {
    let args = FileFormatArgs::new("/cards/DCIM/100CANON/IMG_0001.CR3.xmp", &None).unwrap();
    assert_eq!(args.name, "IMG_0001");
    assert_eq!(args.parent, "100CANON");
    assert_eq!(args.extensions, "CR3.xmp");
}

#[test]
fn format_args_without_dot() {
    let args = FileFormatArgs::new("/x/README", &None).unwrap();
    assert_eq!(args.name, "README");
    assert_eq!(args.parent, "x");
    assert_eq!(args.extensions, "");
}

#[test]
fn format_args_of_hidden_file_and_double_dot() {
    let args = FileFormatArgs::new("/x/.xmp", &None).unwrap();
    assert_eq!(args.name, "");
    assert_eq!(args.extensions, "xmp");
    let args = FileFormatArgs::new("/x/a..b", &None).unwrap();
    assert_eq!(args.name, "a");
    assert_eq!(args.extensions, "b");
}

#[test]
fn relative_file_without_parent_dir_is_not_accepted() {
    // The parent of `photo.jpg` is the empty path, which has no file name.
    assert!(FileInfo::from_parts("photo.jpg".to_string(), 0, 1, &None).is_none());
    let args = FileFormatArgs::new("dir/photo.jpg", &None).unwrap();
    assert_eq!(args.parent, "dir");
    assert_eq!(args.name, "photo");
}

#[test]
fn format_args_from_named_captures() {
    let m = matcher(r"^(?<parent>\w+)_(?<name>\w+)([.]\w+)+$");
    assert!(m.is_some());
    let args = FileFormatArgs::new("/old/2020/Jan/DSC_0042.jpg", &m).unwrap();
    assert_eq!(args.parent, "DSC");
    assert_eq!(args.name, "0042");
    assert_eq!(args.extensions, "jpg");
}

#[test]
fn format_args_extensions_capture_loses_leading_dots() {
    let m = matcher(r"^(?<name>\w+)(?<extensions>[.]\w+)$");
    let args = FileFormatArgs::new("/d/abc.raw", &m).unwrap();
    assert_eq!(args.name, "abc");
    assert_eq!(args.extensions, "raw");
}

#[test]
fn format_args_rejected_by_pattern() {
    let m = matcher(r"^\w+[.](?i:jpg|jpeg)$");
    assert!(FileFormatArgs::new("/d/movie.mp4", &m).is_none());
    assert!(FileFormatArgs::new("/d/pic.JPG", &m).is_some());
}

#[test]
fn file_matcher_cases() {
    assert!(matcher("").is_none());
    assert!(matcher("(").is_none());
    let m = matcher("a+").unwrap();
    assert_eq!(m.pattern(), "a+");
}

#[test]
fn format_fills_placeholders() {
    let args = FileFormatArgs::new("/cards/100CANON/IMG_1.CR3", &None).unwrap();
    assert_eq!(args.format("{parent}_{name}{suffix}.{extensions}", "_2"), "100CANON_IMG_1_2.CR3");
    assert_eq!(args.format("{name}{name}-{other}", ""), "IMG_1IMG_1-{other}");
}

#[test]
fn file_info_from_parts() {
    let f = FileInfo::from_parts("/a/b/c.jpg".to_string(), 5, 10, &None).unwrap();
    assert_eq!(f.path, "/a/b/c.jpg");
    assert_eq!(f.modified, 5);
    assert_eq!(f.size, 10);
    assert_eq!(f.format_args.parent, "b");
    assert!(FileInfo::from_parts("/".to_string(), 5, 10, &None).is_none());
    assert!(FileInfo::from_parts("/a/..".to_string(), 5, 10, &None).is_none());
}

#[test]
fn file_info_under_root_has_no_parent_name() {
    assert!(FileInfo::from_parts("/c.jpg".to_string(), 5, 10, &None).is_none());
}

#[test]
fn content_matches_by_size_extension_and_time() {
    let a = info("/s/a.jpg", 1_000_000, 10);
    assert!(a.content_matches(&info("/d/x.jpg", 1_009_999, 10)));
    assert!(!a.content_matches(&info("/d/x.jpg", 1_010_000, 10)));
    assert!(!a.content_matches(&info("/d/x.jpg", 1_000_000, 11)));
    assert!(!a.content_matches(&info("/d/x.png", 1_000_000, 10)));
    assert!(a.content_matches(&info("/d/x.jpg", 990_001, 10)));
}

#[test]
fn same_key_compares_time_name_and_extensions() {
    let a = info("/s/a.jpg", 7, 10);
    assert!(a.same_key(&info("/t/a.jpg", 7, 99)));
    assert!(!a.same_key(&info("/t/b.jpg", 7, 10)));
    assert!(!a.same_key(&info("/t/a.jpg", 8, 10)));
}

#[test]
fn group_time_is_earliest() {
    let g = FileGroup { files: vec![info("/s/a.jpg", 30, 1), info("/s/a.xmp", 20, 1), info("/s/a.txt", 25, 1)] };
    assert_eq!(g.get_ts(), 20);
    assert_eq!(FileGroup::empty().files.len(), 0);
}

fn layout(dir: &str, fmt: &str) -> GroupLayout {
    GroupLayout { dir: dir.to_string(), file_format: fmt.to_string(), offset: 0 }
}

#[test]
fn moves_use_layout_and_suffix() {
    let g = FileGroup { files: vec![info("/s/a.jpg", 30, 1), info("/s/a.xmp", 20, 1)] };
    let moves = g.moves_in(&layout("/lib/2020", "{name}{suffix}.{extensions}"), 12);
    assert_eq!(moves.len(), 2);
    assert_eq!(moves[0].0, "/lib/2020/a_12.jpg");
    assert_eq!(moves[1].0, "/lib/2020/a_12.xmp");
    assert_eq!(moves[1].1.path, "/s/a.xmp");
    let moves = g.moves_in(&layout("/lib", "{name}{suffix}.{extensions}"), 0);
    assert_eq!(moves[0].0, "/lib/a.jpg");
}

#[test]
fn get_moves_formats_dates() {
    // 2020-06-15T12:00:00Z is in 2020 in every time zone.
    let ts: i64 = 1_592_222_400_000_000_000;
    let g = FileGroup { files: vec![info("/s/a.jpg", ts, 1)] };
    let dest = Destination { dir_pattern: "/lib/%Y".to_string(), file_pattern: "x%Y_{name}.{extensions}".to_string() };
    let moves = g.get_moves(&dest, 0).unwrap();
    assert_eq!(moves[0].0, "/lib/2020/x2020_a.jpg");
}

#[test]
fn unreadable_date_pattern_is_an_error() {
    let g = FileGroup { files: vec![info("/s/a.jpg", 0, 1)] };
    let dest = Destination { dir_pattern: "/lib/%Q".to_string(), file_pattern: "{name}".to_string() };
    assert!(matches!(g.get_moves(&dest, 0), Err(PlanError::TimeFormat)));
    let existing: PathMap<FileInfo> = PathMap::new();
    assert_eq!(g.get_unique_suffix(&existing, &dest), Err(PlanError::TimeFormat));
}

#[test]
fn unique_suffix_skips_conflicts() {
    let g = FileGroup { files: vec![info("/s/a.jpg", 100, 5)] };
    let l = layout("/lib", "{name}{suffix}.{extensions}");
    let mut existing: PathMap<FileInfo> = PathMap::new();
    assert_eq!(g.get_unique_suffix_in(&l, &existing, true), Ok(0));
    existing.insert("/lib/a.jpg".to_string(), info("/lib/a.jpg", 100, 5));
    // Same content: no conflict.
    assert_eq!(g.get_unique_suffix_in(&l, &existing, true), Ok(0));
    existing.insert("/lib/a.jpg".to_string(), info("/lib/a.jpg", 100, 6));
    existing.insert("/lib/a_1.jpg".to_string(), info("/lib/a_1.jpg", 999_999_999, 5));
    assert_eq!(g.get_unique_suffix_in(&l, &existing, true), Ok(2));
    assert_eq!(g.get_unique_suffix_in(&l, &existing, false), Err(PlanError::NoSuffixPlaceholder));
}

#[test]
fn unique_suffix_through_destination() {
    let g = FileGroup { files: vec![info("/s/a.jpg", 100, 5)] };
    let mut existing: PathMap<FileInfo> = PathMap::new();
    existing.insert("/lib/a.jpg".to_string(), info("/lib/a.jpg", 100, 6));
    let dest = Destination { dir_pattern: "/lib".to_string(), file_pattern: "{name}{suffix}.{extensions}".to_string() };
    assert_eq!(g.get_unique_suffix(&existing, &dest), Ok(1));
    assert!(dest.takes_suffix());
    let dest = Destination { dir_pattern: "/lib".to_string(), file_pattern: "{name}.{extensions}".to_string() };
    assert!(!dest.takes_suffix());
    assert_eq!(g.get_unique_suffix(&existing, &dest), Err(PlanError::NoSuffixPlaceholder));
}

#[test]
fn cutoff_is_latest_group_already_copied() {
    let g1 = FileGroup { files: vec![info("/s/a.jpg", 100, 5)] };
    let g2 = FileGroup { files: vec![info("/s/b.jpg", 200, 5)] };
    let g3 = FileGroup { files: vec![info("/s/c.jpg", 300, 5)] };
    let mut existing: PathMap<FileInfo> = PathMap::new();
    existing.insert("/lib/a.jpg".to_string(), info("/lib/a.jpg", 100, 5));
    existing.insert("/lib/b.jpg".to_string(), info("/lib/b.jpg", 200, 5));
    let dest = Destination { dir_pattern: "/lib".to_string(), file_pattern: "{name}{suffix}.{extensions}".to_string() };
    let groups = vec![g1, g2, g3];
    assert_eq!(dest.find_source_cutoff(&groups, &existing), Ok(Some(200)));
    let empty: PathMap<FileInfo> = PathMap::new();
    assert_eq!(dest.find_source_cutoff(&groups, &empty), Ok(None));
}

#[test]
fn file_prefixes() {
    let p = |s: &str| -> String { file_prefix_of(&s.chars().collect()).into_iter().collect() };
    assert_eq!(p("a.b.c"), "a");
    assert_eq!(p(".a.b"), ".a");
    assert_eq!(p(".hidden"), ".hidden");
    assert_eq!(p("plain"), "plain");
    assert_eq!(p(".."), "..");
    assert_eq!(p("x."), "x");
}

#[test]
fn groups_by_prefix() {
    let files = vec![info("/s/a.jpg", 1, 1), info("/s/b.jpg", 2, 1), info("/s/a.xmp", 3, 1), info("/s/.x.y", 4, 1)];
    let groups = get_groups(files);
    assert_eq!(groups.len(), 3);
    assert_eq!(groups[0].files.len(), 2);
    assert_eq!(groups[0].files[1].path, "/s/a.xmp");
    assert_eq!(groups[1].files[0].path, "/s/b.jpg");
    assert_eq!(groups[2].files[0].path, "/s/.x.y");
}

#[test]
fn group_entries_filters_and_groups() {
    let m = matcher(r"^\w+[.](?i:jpg|xmp)$");
    let entries = vec![
        ("/s/a.jpg".to_string(), 1, 1),
        ("/s/a.mp4".to_string(), 2, 1),
        ("/s/a.xmp".to_string(), 3, 1),
        ("/".to_string(), 4, 1),
    ];
    let groups = group_entries(entries, &m);
    assert_eq!(groups.len(), 1);
    assert_eq!(groups[0].files.len(), 2);
    assert_eq!(groups[0].files[1].format_args.extensions, "xmp");
}

#[test]
fn expand_paths_replaces_tilde() {
    let mut d = Destination { dir_pattern: "~/Pictures/%Y".to_string(), file_pattern: "~{name}".to_string() };
    d.expand_paths("/home/me");
    assert_eq!(d.dir_pattern, "/home/me/Pictures/%Y");
    assert_eq!(d.file_pattern, "~{name}");
    let mut s = FilePattern { dir_pattern: "~/in/~".to_string(), file_regex: "~".to_string() };
    s.expand_paths("/h");
    assert_eq!(s.dir_pattern, "/h/in//h");
    assert_eq!(s.file_regex, "~");
}

#[test]
fn dirs_of_groups() {
    let ts: i64 = 1_592_222_400_000_000_000;
    let d = Destination { dir_pattern: "/lib/%Y".to_string(), file_pattern: "{name}".to_string() };
    let groups = vec![FileGroup { files: vec![info("/s/a.jpg", ts, 1)] }];
    assert_eq!(d.get_dirs(&groups).unwrap(), vec!["/lib/2020".to_string()]);
}

#[test]
fn layout_uses_earliest_time_and_each_pattern() {
    // Mid-year instants: the year is the same in every time zone.
    let early: i64 = 1_592_222_400_000_000_000; // 2020-06-15T12:00:00Z
    let late: i64 = 1_623_758_400_000_000_000; // 2021-06-15T12:00:00Z
    let g = FileGroup { files: vec![info("/s/a.jpg", late, 1), info("/s/a.xmp", early, 1)] };
    let dest = Destination { dir_pattern: "/lib/%Y".to_string(), file_pattern: "d%Y_{name}".to_string() };
    let l = dest.layout(&g).unwrap();
    assert_eq!(l.dir, "/lib/2020");
    assert_eq!(l.file_format, "d2020_{name}");
    assert!(l.offset > -86_400 && l.offset < 86_400);
    let dirs = dest.get_dirs(&[g]).unwrap();
    assert_eq!(dirs, vec!["/lib/2020".to_string()]);
}
