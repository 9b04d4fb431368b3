use imgsync::order::sort_pairs;
use imgsync::pathmap::PathMap;
use imgsync::paths::{path_fname, path_with_push};
use imgsync::section::{default_true, Section};
use imgsync::files::{Destination, FileGroup, FileInfo, FilePattern};
use imgsync::util::{confirmation_accepted, expand_homedir, map_update};

#[test]
fn confirmation_answers() {
    assert!(confirmation_accepted("y\n", false));
    assert!(confirmation_accepted("YES\n", false));
    assert!(confirmation_accepted("Yes", false));
    assert!(!confirmation_accepted("no\n", true));
    assert!(confirmation_accepted("\n", true));
    assert!(!confirmation_accepted("\n", false));
    assert!(!confirmation_accepted("yes please\n", true));
}

#[test]
fn homedir_expansion() {
    assert_eq!(expand_homedir("~/.config/imgsync/config.toml", "/home/u"), "/home/u/.config/imgsync/config.toml");
    assert_eq!(expand_homedir("/abs", "/home/u"), "/abs");
}

#[test]
fn path_helpers() {
    assert_eq!(path_fname("/a/b/c.jpg"), "c.jpg");
    assert_eq!(path_fname("c.jpg"), "c.jpg");
    assert_eq!(path_with_push(&"/a/b".to_string(), "c.jpg"), "/a/b/c.jpg");
    assert_eq!(path_with_push(&"/a/b/".to_string(), "c.jpg"), "/a/b/c.jpg");
    assert_eq!(path_with_push(&"/a".to_string(), "/abs"), "/abs");
}

#[test]
fn path_map_operations() {
    let mut m: PathMap<u32> = PathMap::new();
    m.insert("a".to_string(), 1);
    m.insert("b".to_string(), 2);
    m.insert("a".to_string(), 3);
    assert_eq!(m.len(), 2);
    assert_eq!(m.get("a"), Some(&3));
    assert_eq!(m.remove("b"), Some(2));
    assert_eq!(m.remove("b"), None);
    assert!(!m.contains_key("b"));
    let (k, v) = m.entry(0);
    assert_eq!((k.as_str(), *v), ("a", 3));
}

#[test]
fn map_update_merges() {
    let mut a: PathMap<u32> = PathMap::new();
    a.insert("x".to_string(), 1);
    a.insert("y".to_string(), 2);
    let mut b: PathMap<u32> = PathMap::new();
    b.insert("y".to_string(), 10);
    b.insert("z".to_string(), 20);
    let merged = map_update(&mut a, &mut b, |p: u32, q: u32| p.wrapping_add(q));
    assert_eq!(merged.len(), 3);
    assert_eq!(a.get("x"), Some(&1));
    assert_eq!(a.get("y"), Some(&12));
    assert_eq!(a.get("z"), Some(&20));
    assert_eq!(b.len(), 0);
}

#[test]
fn pairs_sort_by_source_then_destination() {
    let items = vec![
        ("b".to_string(), "1".to_string()),
        ("a".to_string(), "2".to_string()),
        ("a".to_string(), "1".to_string()),
        ("ab".to_string(), "0".to_string()),
        ("é".to_string(), "0".to_string()),
        ("z".to_string(), "0".to_string()),
    ];
    let sorted = sort_pairs(items);
    let firsts: Vec<(&str, &str)> = sorted.iter().map(|(a, b)| (a.as_str(), b.as_str())).collect();
    assert_eq!(firsts, vec![("a", "1"), ("a", "2"), ("ab", "0"), ("b", "1"), ("z", "0"), ("é", "0")]);
}

#[test]
fn default_is_true() {
    assert!(default_true());
}

fn info(path: &str, modified: i64) -> FileInfo {
    FileInfo::from_parts(path.to_string(), modified, 1, &None).unwrap()
}

#[test]
fn section_paths_and_dirs() {
    let mut section = Section {
        name: Some("photos".to_string()),
        sources: vec![FilePattern { dir_pattern: "~/in".to_string(), file_regex: String::new() }],
        destinations: vec![
            Destination { dir_pattern: "~/out".to_string(), file_pattern: "{name}".to_string() },
            Destination { dir_pattern: "/backup".to_string(), file_pattern: "{name}".to_string() },
            Destination { dir_pattern: "~/out".to_string(), file_pattern: "{name}{suffix}".to_string() },
        ],
    };
    section.expand_paths("/h");
    assert_eq!(section.sources[0].dir_pattern, "/h/in");
    assert_eq!(section.destinations[0].dir_pattern, "/h/out");
    let groups = vec![FileGroup { files: vec![info("/h/in/a.jpg", 1)] }, FileGroup { files: vec![info("/h/in/b.jpg", 2)] }];
    let dirs = section.get_dest_dirs(&groups).unwrap();
    assert_eq!(dirs, vec!["/h/out".to_string(), "/backup".to_string()]);
}
