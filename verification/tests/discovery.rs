//! Walking snippet roots.

use peanutbutter::discovery::{relative_to, sort_paths, EntryKind, IgnoreRules, Walk, WalkEntry};
use peanutbutter::path;

/// A directory tree: directories with their entries. A link is a directory
/// that stands for another one.
struct Tree {
    dirs: Vec<(&'static str, Vec<(&'static str, EntryKind)>)>,
    links: Vec<(&'static str, &'static str)>,
}

impl Tree {
    fn canonical(&self, dir: &str) -> String {
        let mut out = dir.to_string();
        for _ in 0..10 {
            for (link, target) in &self.links {
                if out == *link || out.starts_with(&format!("{link}/")) {
                    out = format!("{target}{}", &out[link.len()..]);
                }
            }
        }
        out
    }

    fn walk(&self, root: &str, rules: IgnoreRules) -> Vec<String> {
        let mut walk = Walk::new(rules);
        let kind = if self.dirs.iter().any(|d| d.0 == self.canonical(root)) {
            EntryKind::Directory
        } else {
            EntryKind::Other
        };
        walk.start_root(root, kind);
        while let Some(dir) = walk.next_dir() {
            let real = self.canonical(&dir);
            if !walk.enter(&real) {
                continue;
            }
            let entries: Vec<WalkEntry> = self
                .dirs
                .iter()
                .find(|d| d.0 == real)
                .unwrap()
                .1
                .iter()
                .map(|(name, kind)| WalkEntry { name: name.to_string(), kind: *kind })
                .collect();
            walk.list(&dir, &entries);
        }
        walk.finish_root();
        walk.files()
            .iter()
            .map(|f| f.strip_prefix(&format!("{root}/")).unwrap().to_string())
            .collect()
    }
}

fn ignoring(patterns: &[&str]) -> IgnoreRules {
    IgnoreRules::new(patterns.iter().map(|p| p.to_string()).collect())
}

#[test]
fn discovers_markdown_files_in_nested_tree() {
    let tree = Tree {
        dirs: vec![
            (
                "/r",
                vec![
                    ("alpha", EntryKind::Directory),
                    ("beta", EntryKind::Directory),
                    ("root.md", EntryKind::File),
                ],
            ),
            ("/r/alpha", vec![("deep", EntryKind::Directory), ("one.markdown", EntryKind::File)]),
            ("/r/alpha/deep", vec![("two.md", EntryKind::File)]),
            ("/r/beta", vec![("ignored.txt", EntryKind::File)]),
        ],
        links: vec![],
    };
    assert_eq!(
        tree.walk("/r", ignoring(&[])),
        vec!["alpha/deep/two.md", "alpha/one.markdown", "root.md"]
    );
}

#[test]
fn ignored_patterns_skip_files_directories_and_globs() {
    let tree = Tree {
        dirs: vec![
            ("/r", vec![("keep", EntryKind::Directory), ("hidden-repo", EntryKind::Directory)]),
            ("/r/keep", vec![("a.md", EntryKind::File), ("generated.md", EntryKind::File)]),
            ("/r/hidden-repo", vec![("b.md", EntryKind::File), ("nested", EntryKind::Directory)]),
            ("/r/hidden-repo/nested", vec![("c.md", EntryKind::File)]),
        ],
        links: vec![],
    };
    assert_eq!(
        tree.walk("/r", ignoring(&["hidden-repo/"])),
        vec!["keep/a.md", "keep/generated.md"]
    );
    assert_eq!(
        tree.walk("/r", ignoring(&["*generated*"])),
        vec!["hidden-repo/b.md", "hidden-repo/nested/c.md", "keep/a.md"]
    );
    assert_eq!(
        tree.walk("/r", ignoring(&["/r/hidden-repo"])),
        vec!["keep/a.md", "keep/generated.md"]
    );
    assert!(ignoring(&[]).is_empty());
    assert_eq!(tree.walk("/r", ignoring(&[])).len(), 4);
}

#[test]
fn returns_empty_when_root_missing() {
    let tree = Tree { dirs: vec![], links: vec![] };
    let files = tree.walk("/nonexistent/pb/path", ignoring(&[]));
    assert!(files.is_empty());
}

#[test]
fn does_not_loop_on_self_referential_symlink() {
    let tree = Tree {
        dirs: vec![("/r", vec![("real.md", EntryKind::File), ("loop", EntryKind::Directory)])],
        links: vec![("/r/loop", "/r")],
    };
    let names = tree.walk("/r", ignoring(&[]));
    assert!(names.contains(&"real.md".to_string()));
    assert_eq!(names.len(), 1);
}

#[test]
fn follows_symlink_to_sibling_directory() {
    let tree = Tree {
        dirs: vec![
            ("/w/root", vec![("via-link", EntryKind::Directory)]),
            ("/w/target", vec![("linked.md", EntryKind::File)]),
        ],
        links: vec![("/w/root/via-link", "/w/target")],
    };
    assert_eq!(tree.walk("/w/root", ignoring(&[])), vec!["via-link/linked.md"]);
}

#[test]
fn paths_are_sorted_by_their_parts() {
    let list = vec!["/r/a-b.md".to_string(), "/r/a/z.md".to_string(), "/r/a.md".to_string()];
    assert_eq!(sort_paths(&list), vec!["/r/a/z.md", "/r/a-b.md", "/r/a.md"]);
}

#[test]
fn paths_are_taken_apart_and_put_together() {
    assert_eq!(path::join("/a", "b/c"), "/a/b/c");
    assert_eq!(path::join("/a", "/b"), "/b");
    assert_eq!(path::file_name("/a/b.md").as_deref(), Some("b.md"));
    assert_eq!(path::extension("/a/b.md").as_deref(), Some("md"));
    assert_eq!(path::extension("/a/.hidden"), None);
    assert!(path::is_markdown("x.markdown"));
    assert!(!path::is_markdown("x.txt"));
    assert!(path::is_under("/a/b/c", "/a/b"));
    assert!(!path::is_under("/a/bc", "/a/b"));
    assert!(path::same_path("/a/./b", "/a/b"));
    assert_eq!(path::named_components("/a/../b"), vec!["a", "b"]);
}

#[test]
fn a_file_is_found_once() {
    let mut walk = Walk::new(IgnoreRules::default());
    for root in ["/r/a.md", "/r/a.md", "/r//a.md"] {
        walk.start_root(root, EntryKind::File);
        assert!(walk.next_dir().is_none());
        walk.finish_root();
    }
    assert_eq!(walk.files(), &vec!["/r/a.md".to_string()]);

    walk.start_root("/r", EntryKind::Directory);
    let dir = walk.next_dir().unwrap();
    assert!(walk.enter(&dir));
    let entry = |name: &str| WalkEntry { name: name.to_string(), kind: EntryKind::File };
    walk.list(&dir, &vec![entry("b.md"), entry("a.md")]);
    walk.finish_root();
    assert_eq!(walk.files(), &vec!["/r/a.md".to_string(), "/r/b.md".to_string()]);
}

#[test]
fn files_are_known_by_their_place_below_the_root() {
    assert_eq!(relative_to("/r/x/a.md", "/r"), "x/a.md");
    assert_eq!(relative_to("/r/x/a.md", "/r/"), "x/a.md");
    assert_eq!(relative_to("/r/a.md", "/r/a.md"), "a.md");
    assert_eq!(relative_to("/other/a.md", "/r"), "a.md");
    assert_eq!(relative_to("/", "/r"), "");
}
