use xcat::config::{normalize_pattern, ConfigError, TraversalConfig};
use xcat::filter::{filter_entry, is_effectively_empty, sorted_children};
use xcat::snapshot::{EntryKind, Snapshot};
use xcat::text::{
    connector_str, display_path, get_dir_name, icon_str, input_separator, line_string,
    process_file, render_file_contents, render_text_tree, TreeLine,
};
use xcat::tree::{json_tree, TreeNode};

const FOLDER: &str = "\u{1F4C1}";
const PAGE: &str = "\u{1F4C4}";
const TEE: &str = "\u{251c}\u{2500}\u{2500}";
const CORNER: &str = "\u{2514}\u{2500}\u{2500}";

fn root(path: &str) -> Snapshot {
    Snapshot::new(path.to_string(), path.to_string(), EntryKind::Dir)
}

fn add(s: &mut Snapshot, parent: usize, name: &str, kind: EntryKind) -> usize {
    let parent_path = s.entries[parent].path.clone();
    let path = format!("{}/{}", parent_path, name);
    s.add_child(parent, name.to_string(), path, kind).unwrap()
}

fn config(max_depth: Option<usize>, dirs_only: bool, keep_locks: bool, pattern: Option<&str>) -> TraversalConfig {
    TraversalConfig::new(max_depth, dirs_only, keep_locks, pattern).unwrap()
}

fn default_config() -> TraversalConfig {
    config(None, false, false, None)
}

fn names(lines: &[TreeLine]) -> Vec<String> {
    lines.iter().map(|l| l.name.clone()).collect()
}

fn child_names(node: &TreeNode) -> Vec<String> {
    node.children.as_ref().unwrap().iter().map(|n| n.name.clone()).collect()
}

#[test]
fn children_are_sorted_by_path() {
    let mut s = root("r");
    add(&mut s, 0, "b", EntryKind::File);
    add(&mut s, 0, "a", EntryKind::File);
    add(&mut s, 0, "c", EntryKind::File);
    let cfg = default_config();
    let report = render_text_tree(&s, &cfg, None);
    assert_eq!(names(&report.lines), vec!["a", "b", "c"]);
    let tree = json_tree(&s, &cfg);
    assert_eq!(child_names(&tree), vec!["a", "b", "c"]);
    assert_eq!(sorted_children(&s, 0, &cfg), vec![2, 1, 3]);
}

#[test]
fn depth_limit_hides_deeper_entries() {
    let mut s = root("r");
    let sub = add(&mut s, 0, "sub", EntryKind::Dir);
    add(&mut s, sub, "f.txt", EntryKind::File);
    let cfg = config(Some(1), false, false, None);
    let report = render_text_tree(&s, &cfg, None);
    assert_eq!(names(&report.lines), vec!["sub"]);
    assert!(report.files.is_empty());
    let tree = json_tree(&s, &cfg);
    let kids = tree.children.as_ref().unwrap();
    assert_eq!(kids.len(), 1);
    assert_eq!(kids[0].name, "sub");
    assert!(kids[0].children.is_none());
    // The directory is still classified by what lies below the limit.
    assert!(!kids[0].is_empty);
}

#[test]
fn depth_zero_lists_nothing() {
    let mut s = root("r");
    add(&mut s, 0, "a.txt", EntryKind::File);
    let cfg = config(Some(0), false, false, None);
    let report = render_text_tree(&s, &cfg, None);
    assert!(report.lines.is_empty());
    assert!(json_tree(&s, &cfg).children.is_none());
}

#[test]
fn directory_with_only_empty_subdirectory_is_empty() {
    let mut s = root("r");
    let e = add(&mut s, 0, "e", EntryKind::Dir);
    let cfg = default_config();
    assert!(is_effectively_empty(&s, e, &cfg));
    assert!(is_effectively_empty(&s, 0, &cfg));
    let tree = json_tree(&s, &cfg);
    assert!(tree.is_empty);
    let report = render_text_tree(&s, &cfg, None);
    assert_eq!(line_string(&report.lines[0]), format!("{} {} e (empty)\n", CORNER, FOLDER));
}

#[test]
fn deep_file_makes_every_ancestor_non_empty() {
    let mut s = root("r");
    let a = add(&mut s, 0, "a", EntryKind::Dir);
    let b = add(&mut s, a, "b", EntryKind::Dir);
    let c = add(&mut s, b, "c", EntryKind::Dir);
    add(&mut s, c, "f.txt", EntryKind::File);
    let cfg = default_config();
    for d in [0, a, b, c] {
        assert!(!is_effectively_empty(&s, d, &cfg));
    }
    let tree = json_tree(&s, &cfg);
    let mut node = &tree;
    for _ in 0..4 {
        assert!(!node.is_empty);
        node = &node.children.as_ref().unwrap()[0];
    }
    assert_eq!(node.name, "f.txt");
}

#[test]
fn lock_file_left_out_by_default() {
    let mut s = root("r");
    add(&mut s, 0, "Cargo.lock", EntryKind::File);
    add(&mut s, 0, "main.txt", EntryKind::File);
    let report = render_text_tree(&s, &default_config(), None);
    assert_eq!(names(&report.lines), vec!["main.txt"]);
    let keep = config(None, false, true, None);
    let report = render_text_tree(&s, &keep, None);
    assert_eq!(names(&report.lines), vec!["Cargo.lock", "main.txt"]);
}

#[test]
fn glob_keeps_matching_files_and_their_directories() {
    let mut s = root("r");
    add(&mut s, 0, "a.rs", EntryKind::File);
    add(&mut s, 0, "b.txt", EntryKind::File);
    let sub = add(&mut s, 0, "sub", EntryKind::Dir);
    add(&mut s, sub, "c.txt", EntryKind::File);
    let deep = add(&mut s, 0, "deep", EntryKind::Dir);
    let inner = add(&mut s, deep, "inner", EntryKind::Dir);
    add(&mut s, inner, "d.rs", EntryKind::File);
    let cfg = config(None, false, false, Some("*.rs"));
    let report = render_text_tree(&s, &cfg, None);
    assert_eq!(names(&report.lines), vec!["a.rs", "deep", "inner", "d.rs"]);
    assert!(!filter_entry(&s, 0, sub, &cfg));
    assert!(filter_entry(&s, 0, deep, &cfg));
    assert_eq!(report.files, vec!["r/a.rs", "r/deep/inner/d.rs"]);
}

#[test]
fn bare_suffix_pattern_gets_a_leading_star() {
    assert_eq!(normalize_pattern(".rs"), "*.rs");
    assert_eq!(normalize_pattern("*.rs"), "*.rs");
    assert_eq!(normalize_pattern(""), "*");
    let mut s = root("r");
    let a = add(&mut s, 0, "a.rs", EntryKind::File);
    let b = add(&mut s, 0, "b.txt", EntryKind::File);
    let cfg = config(None, false, false, Some(".rs"));
    assert_eq!(cfg.file_glob.as_ref().unwrap().pattern(), "*.rs");
    assert!(filter_entry(&s, 0, a, &cfg));
    assert!(!filter_entry(&s, 0, b, &cfg));
}

#[test]
fn invalid_pattern_is_refused() {
    let r = TraversalConfig::new(None, false, false, Some("a["));
    assert!(matches!(r, Err(ConfigError::InvalidPattern)));
}

#[test]
fn glob_hides_directories_whose_matches_are_all_filtered() {
    let mut s = root("r");
    let sub = add(&mut s, 0, "sub", EntryKind::Dir);
    add(&mut s, sub, "x.rs", EntryKind::File);
    let cfg = config(None, true, false, Some("*.rs"));
    let report = render_text_tree(&s, &cfg, None);
    assert!(report.lines.is_empty());
    // The node tree still lists the admitted directory, marked empty.
    let tree = json_tree(&s, &cfg);
    let kids = tree.children.as_ref().unwrap();
    assert_eq!(kids.len(), 1);
    assert!(kids[0].is_empty);
}

#[test]
fn dirs_only_lists_directories() {
    let mut s = root("r");
    add(&mut s, 0, "f.txt", EntryKind::File);
    let d = add(&mut s, 0, "d", EntryKind::Dir);
    add(&mut s, d, "g.txt", EntryKind::File);
    let cfg = config(None, true, false, None);
    let report = render_text_tree(&s, &cfg, None);
    assert_eq!(names(&report.lines), vec!["d"]);
    assert!(report.lines[0].empty);
}

#[test]
fn other_entries_are_skipped() {
    let mut s = root("r");
    add(&mut s, 0, "fifo", EntryKind::Other);
    add(&mut s, 0, "a.txt", EntryKind::File);
    let report = render_text_tree(&s, &default_config(), None);
    assert_eq!(names(&report.lines), vec!["a.txt"]);
}

#[test]
fn full_text_rendering() {
    let mut s = root("proj");
    let src = add(&mut s, 0, "src", EntryKind::Dir);
    add(&mut s, src, "main.rs", EntryKind::File);
    add(&mut s, src, "lib.rs", EntryKind::File);
    add(&mut s, 0, "README", EntryKind::File);
    let report = render_text_tree(&s, &default_config(), None);
    let expected = format!(
        "# Tree structure for `proj`\n{f} proj\n{t} {p} README\n{c} {f} src\n   {t} {p} lib.rs\n   {c} {p} main.rs\n",
        f = FOLDER,
        p = PAGE,
        t = TEE,
        c = CORNER
    );
    assert_eq!(report.text, expected);
    assert_eq!(report.heading, "# Tree structure for `proj`");
    assert_eq!(report.root_line, format!("{} proj", FOLDER));
    assert_eq!(report.files, vec!["proj/README", "proj/src/lib.rs", "proj/src/main.rs"]);
}

#[test]
fn continuation_bar_under_non_last_directory() {
    let mut s = root("r");
    let a = add(&mut s, 0, "a", EntryKind::Dir);
    add(&mut s, a, "x", EntryKind::File);
    add(&mut s, 0, "b", EntryKind::File);
    let report = render_text_tree(&s, &default_config(), None);
    assert_eq!(report.lines[1].prefix, "\u{2502}  ");
    assert_eq!(line_string(&report.lines[1]), format!("\u{2502}  {} {} x\n", CORNER, PAGE));
    assert_eq!(line_string(&report.lines[0]), format!("{} {} a\n", TEE, FOLDER));
}

#[test]
fn text_and_tree_list_the_same_children() {
    let mut s = root("r");
    let z = add(&mut s, 0, "z", EntryKind::Dir);
    add(&mut s, z, "q.txt", EntryKind::File);
    add(&mut s, z, "p.txt", EntryKind::File);
    add(&mut s, 0, "m.txt", EntryKind::File);
    let cfg = default_config();
    let report = render_text_tree(&s, &cfg, None);
    let tree = json_tree(&s, &cfg);
    let top: Vec<String> = report.lines.iter().filter(|l| l.prefix.is_empty()).map(|l| l.name.clone()).collect();
    assert_eq!(top, child_names(&tree));
    let under_z: Vec<String> = report.lines.iter().filter(|l| !l.prefix.is_empty()).map(|l| l.name.clone()).collect();
    assert_eq!(under_z, child_names(&tree.children.as_ref().unwrap()[1]));
}

#[test]
fn tree_paths_match_text_paths() {
    let mut s = root("r");
    let d = add(&mut s, 0, "d", EntryKind::Dir);
    add(&mut s, d, "x.txt", EntryKind::File);
    add(&mut s, 0, "y.txt", EntryKind::File);
    let cfg = default_config();
    let report = render_text_tree(&s, &cfg, None);
    let from_text: Vec<(String, bool)> = report.lines.iter().map(|l| (l.path.clone(), l.is_dir)).collect();
    fn walk(n: &TreeNode, out: &mut Vec<(String, bool)>) {
        if let Some(kids) = &n.children {
            for k in kids {
                out.push((k.path.clone(), k.is_dir));
                walk(k, out);
            }
        }
    }
    let mut from_tree = Vec::new();
    walk(&json_tree(&s, &cfg), &mut from_tree);
    assert_eq!(from_text, from_tree);
}

#[test]
fn rendering_twice_gives_identical_text() {
    let mut s = root("r");
    let d = add(&mut s, 0, "d", EntryKind::Dir);
    add(&mut s, d, "x.rs", EntryKind::File);
    add(&mut s, 0, "y.rs", EntryKind::File);
    let first = render_text_tree(&s, &config(None, false, false, Some("*.rs")), None);
    let second = render_text_tree(&s, &config(None, false, false, Some("*.rs")), None);
    assert_eq!(first.text, second.text);
}

#[test]
fn file_mode_output() {
    assert_eq!(process_file("./notes.txt", "hello"), "./notes.txt\nhello\n");
    assert_eq!(process_file("./notes.txt", "hello\n"), "./notes.txt\nhello\n");
    assert_eq!(process_file("./e.txt", ""), "./e.txt\n\n");
}

#[test]
fn display_path_prefers_relative() {
    assert_eq!(display_path("/w/a.txt", Some("a.txt")), "./a.txt");
    assert_eq!(display_path("/etc/hosts", None), "/etc/hosts");
}

#[test]
fn file_contents_section() {
    assert_eq!(render_file_contents(&Vec::new()), "");
    let files = vec![
        ("r/a.txt".to_string(), "one".to_string()),
        ("r/b.txt".to_string(), "two\n".to_string()),
    ];
    assert_eq!(
        render_file_contents(&files),
        "\n# File Contents\n# r/a.txt\none\n# r/b.txt\ntwo\n"
    );
}

#[test]
fn heading_name_for_current_directory() {
    let s = Snapshot::new(".".to_string(), ".".to_string(), EntryKind::Dir);
    assert_eq!(get_dir_name(&s, Some("work")), "work");
    assert_eq!(get_dir_name(&s, None), ".");
    let t = root("some/dir");
    assert_eq!(get_dir_name(&t, Some("work")), "some/dir");
    let report = render_text_tree(&s, &default_config(), Some("work"));
    assert_eq!(report.text, format!("# Tree structure for `work`\n{} .\n", FOLDER));
}

#[test]
fn separator_between_inputs() {
    let sep = input_separator();
    assert_eq!(sep, format!("\n{}\n", "#".repeat(80)));
}

#[test]
fn glyphs() {
    assert_eq!(connector_str(true), CORNER);
    assert_eq!(connector_str(false), TEE);
    assert_eq!(icon_str(true), FOLDER);
    assert_eq!(icon_str(false), PAGE);
}

#[test]
fn add_child_refuses_non_directory_parent() {
    let mut s = root("r");
    let f = add(&mut s, 0, "f", EntryKind::File);
    assert_eq!(s.add_child(f, "x".to_string(), "r/f/x".to_string(), EntryKind::File), None);
    assert_eq!(s.add_child(99, "x".to_string(), "x".to_string(), EntryKind::File), None);
    assert_eq!(s.entries.len(), 2);
}

#[test]
fn entry_equal_to_its_parent_is_rejected() {
    let mut s = root("r");
    let same = s.add_child(0, "r".to_string(), "r".to_string(), EntryKind::Dir).unwrap();
    add(&mut s, same, "x.txt", EntryKind::File);
    assert!(!filter_entry(&s, 0, same, &default_config()));
    assert!(is_effectively_empty(&s, 0, &default_config()));
}

#[test]
fn text_and_tree_agree_under_a_pattern_that_hides_nothing() {
    let mut s = root("r");
    let d = add(&mut s, 0, "d", EntryKind::Dir);
    add(&mut s, d, "x.rs", EntryKind::File);
    add(&mut s, d, "y.txt", EntryKind::File);
    add(&mut s, 0, "a.rs", EntryKind::File);
    let cfg = config(None, false, false, Some("*.rs"));
    let report = render_text_tree(&s, &cfg, None);
    let tree = json_tree(&s, &cfg);
    let top: Vec<String> = report.lines.iter().filter(|l| l.prefix.is_empty()).map(|l| l.name.clone()).collect();
    assert_eq!(top, vec!["a.rs", "d"]);
    assert_eq!(top, child_names(&tree));
    assert_eq!(names(&report.lines), vec!["a.rs", "d", "x.rs"]);
}

#[test]
fn corner_goes_on_last_drawn_line() {
    let mut s = root("r");
    add(&mut s, 0, "a.lock", EntryKind::File);
    let z = add(&mut s, 0, "z", EntryKind::Dir);
    add(&mut s, z, "Cargo.lock", EntryKind::File);
    let cfg = config(None, false, false, Some("*.lock"));
    let report = render_text_tree(&s, &cfg, None);
    assert_eq!(names(&report.lines), vec!["a.lock"]);
    assert!(report.lines[0].last);
    assert_eq!(line_string(&report.lines[0]), format!("{} {} a.lock\n", CORNER, PAGE));
}

#[test]
fn current_directory_spelled_with_slash() {
    let s = Snapshot::new("./".to_string(), "./".to_string(), EntryKind::Dir);
    assert_eq!(get_dir_name(&s, Some("work")), "work");
    let t = Snapshot::new("./.".to_string(), "./.".to_string(), EntryKind::Dir);
    assert_eq!(get_dir_name(&t, Some("work")), "work");
    let u = Snapshot::new("..".to_string(), "..".to_string(), EntryKind::Dir);
    assert_eq!(get_dir_name(&u, Some("work")), "..");
    let v = Snapshot::new("./x".to_string(), "./x".to_string(), EntryKind::Dir);
    assert_eq!(get_dir_name(&v, Some("work")), "./x");
}

#[test]
fn duplicate_sibling_path_is_refused() {
    let mut s = root("r");
    add(&mut s, 0, "a", EntryKind::File);
    assert_eq!(s.add_child(0, "a".to_string(), "r/a".to_string(), EntryKind::File), None);
    assert_eq!(s.entries.len(), 2);
}

#[test]
fn pattern_too_deep_to_build_is_refused() {
    let pattern = format!("{}a{}", "{".repeat(300), "}".repeat(300));
    let r = TraversalConfig::new(None, false, false, Some(&pattern));
    assert!(matches!(r, Err(ConfigError::InvalidPattern)));
}
