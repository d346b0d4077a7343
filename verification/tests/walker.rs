use dirtree::entry::DirectoryEntry;
use dirtree::line::root_line;
use dirtree::walker::{Phase, Reply, Request, Walker};
use std::collections::HashMap;

/// A file system held in memory: each directory with the names read in it,
/// or the reason why it cannot be read.
struct Disk {
    dirs: HashMap<String, Result<Vec<String>, String>>,
}

impl Disk {
    fn new() -> Disk {
        Disk { dirs: HashMap::new() }
    }

    fn dir(mut self, path: &str, names: &[&str]) -> Disk {
        self.dirs.insert(path.to_string(), Ok(names.iter().map(|n| n.to_string()).collect()));
        self
    }

    fn locked(mut self, path: &str, reason: &str) -> Disk {
        self.dirs.insert(path.to_string(), Err(reason.to_string()));
        self
    }

    fn answer(&self, request: &Request) -> Option<Reply> {
        match request {
            Request::List(path) => Some(match self.dirs.get(path) {
                Some(Ok(names)) => Reply::Listed(
                    names
                        .iter()
                        .map(|n| DirectoryEntry::new(format!("{}/{}", path, n), n.clone()))
                        .collect(),
                ),
                Some(Err(reason)) => Reply::Unreadable(reason.clone()),
                None => Reply::Unreadable(format!("{}: not a directory", path)),
            }),
            Request::Probe(path) => Some(Reply::Kind(self.dirs.contains_key(path))),
            Request::Done | Request::Abort(_) => None,
        }
    }
}

struct Walk {
    lines: Vec<String>,
    asked: Vec<Request>,
    end: Request,
}

fn walk(disk: &Disk, root: &str, exclude: &[&str]) -> Walk {
    let exclude: Vec<String> = exclude.iter().map(|n| n.to_string()).collect();
    let mut walker = Walker::new(root.to_string(), exclude);
    let mut lines = Vec::new();
    let mut asked = Vec::new();
    for _ in 0..100_000 {
        let request = walker.request();
        match disk.answer(&request) {
            Some(reply) => {
                asked.push(request);
                let (next, line) = walker.step(reply);
                walker = next;
                if let Some(line) = line {
                    lines.push(line);
                }
            }
            None => return Walk { lines, asked, end: request },
        }
    }
    panic!("the traversal did not end");
}

#[test]
fn nested_tree_is_rendered_with_guides() {
    let disk = Disk::new().dir("root", &["b", "a"]).dir("root/a", &["x"]);
    let out = walk(&disk, "root", &[]);
    assert_eq!(root_line("root", Some("root")), "root/");
    assert_eq!(out.lines, vec!["├── a/", "│   └── x", "└── b"]);
    assert_eq!(out.end, Request::Done);
}

#[test]
fn only_child_gets_the_last_connector() {
    let disk = Disk::new().dir("r", &["only"]);
    assert_eq!(walk(&disk, "r", &[]).lines, vec!["└── only"]);
    let nested = Disk::new().dir("r", &["d"]).dir("r/d", &["only"]);
    assert_eq!(walk(&nested, "r", &[]).lines, vec!["└── d/", "    └── only"]);
}

#[test]
fn all_but_the_last_child_get_the_branch_connector() {
    let disk = Disk::new().dir("r", &["d", "a", "c", "b"]);
    assert_eq!(walk(&disk, "r", &[]).lines, vec!["├── a", "├── b", "├── c", "└── d"]);
}

#[test]
fn empty_root_writes_nothing() {
    let disk = Disk::new().dir("r", &[]);
    let out = walk(&disk, "r", &[]);
    assert!(out.lines.is_empty());
    assert_eq!(out.asked, vec![Request::List("r".to_string())]);
    assert_eq!(out.end, Request::Done);
}

#[test]
fn empty_directory_is_shown_and_left() {
    let disk = Disk::new().dir("r", &["z", "e"]).dir("r/e", &[]);
    assert_eq!(walk(&disk, "r", &[]).lines, vec!["├── e/", "└── z"]);
}

#[test]
fn rendering_twice_gives_the_same_lines() {
    let disk = Disk::new()
        .dir("p", &["src", "README.md", "Cargo.toml"])
        .dir("p/src", &["main.rs", "lib.rs", "bin"])
        .dir("p/src/bin", &["tool.rs"]);
    let first = walk(&disk, "p", &[]);
    let second = walk(&disk, "p", &[]);
    assert_eq!(first.lines, second.lines);
    assert_eq!(first.asked, second.asked);
    assert_eq!(
        first.lines,
        vec![
            "├── Cargo.toml",
            "├── README.md",
            "└── src/",
            "    ├── bin/",
            "    │   └── tool.rs",
            "    ├── lib.rs",
            "    └── main.rs",
        ]
    );
}

#[test]
fn read_order_does_not_change_the_lines() {
    let one = Disk::new().dir("p", &["b", "a", "C"]).dir("p/a", &["y", "x"]);
    let other = Disk::new().dir("p", &["C", "b", "a"]).dir("p/a", &["x", "y"]);
    assert_eq!(walk(&one, "p", &[]).lines, walk(&other, "p", &[]).lines);
    assert_eq!(walk(&one, "p", &[]).lines, vec!["├── C", "├── a/", "│   ├── x", "│   └── y", "└── b"]);
}

#[test]
fn excluded_entries_are_neither_written_nor_asked_about() {
    let disk = Disk::new()
        .dir("p", &["target", "src", ".git", "notes"])
        .dir("p/target", &["debug"])
        .dir("p/target/debug", &["app"])
        .locked("p/.git", "must not be read")
        .dir("p/src", &["target", "main.rs"])
        .dir("p/src/target", &["junk"]);
    let out = walk(&disk, "p", &["target", ".git"]);
    assert_eq!(out.lines, vec!["├── notes", "└── src/", "    └── main.rs"]);
    assert_eq!(out.end, Request::Done);
    for request in out.asked.iter() {
        match request {
            Request::List(path) | Request::Probe(path) => {
                assert!(!path.contains("target"), "{}", path);
                assert!(!path.contains(".git"), "{}", path);
            }
            _ => {}
        }
    }
}

#[test]
fn exclusion_applies_to_files_as_well() {
    let disk = Disk::new().dir("p", &["out", "a"]);
    assert_eq!(walk(&disk, "p", &["out"]).lines, vec!["└── a"]);
}

#[test]
fn the_last_kept_entry_is_drawn_as_last() {
    let disk = Disk::new().dir("p", &["a", "b", "zzz"]);
    assert_eq!(walk(&disk, "p", &["zzz"]).lines, vec!["├── a", "└── b"]);
}

#[test]
fn unreadable_root_aborts_at_once() {
    let disk = Disk::new().locked("p", "Permission denied (os error 13)");
    let out = walk(&disk, "p", &[]);
    assert!(out.lines.is_empty());
    assert_eq!(out.end, Request::Abort("Permission denied (os error 13)".to_string()));
}

#[test]
fn unreadable_directory_two_levels_down_aborts_and_keeps_what_was_written() {
    let disk = Disk::new()
        .dir("p", &["a", "m", "z"])
        .dir("p/m", &["more", "locked", "early"])
        .locked("p/m/locked", "Permission denied (os error 13)")
        .dir("p/z", &["never"]);
    let out = walk(&disk, "p", &[]);
    assert_eq!(out.lines, vec!["├── a", "├── m/", "│   ├── early", "│   ├── locked/"]);
    assert_eq!(out.end, Request::Abort("Permission denied (os error 13)".to_string()));
    assert_eq!(out.asked.last(), Some(&Request::List("p/m/locked".to_string())));
    assert!(!out.asked.contains(&Request::Probe("p/m/more".to_string())));
    assert!(!out.asked.contains(&Request::Probe("p/z".to_string())));
}

#[test]
fn sibling_after_a_deep_subtree_gets_its_own_connector() {
    let disk = Disk::new()
        .dir("r", &["deep", "next", "tail"])
        .dir("r/deep", &["l1"])
        .dir("r/deep/l1", &["l2"])
        .dir("r/deep/l1/l2", &["l3"])
        .dir("r/deep/l1/l2/l3", &["leaf"]);
    assert_eq!(
        walk(&disk, "r", &[]).lines,
        vec![
            "├── deep/",
            "│   └── l1/",
            "│       └── l2/",
            "│           └── l3/",
            "│               └── leaf",
            "├── next",
            "└── tail",
        ]
    );
}

#[test]
fn stack_is_restored_after_a_very_deep_chain() {
    let mut disk = Disk::new();
    let mut path = "r".to_string();
    disk = disk.dir("r", &["d", "z"]);
    for _ in 0..200 {
        path = format!("{}/d", path);
        disk = disk.dir(&path, &["d"]);
    }
    path = format!("{}/d", path);
    disk = disk.dir(&path, &[]);
    let out = walk(&disk, "r", &[]);
    assert_eq!(out.lines.len(), 202);
    assert_eq!(out.lines[0], "├── d/");
    assert_eq!(out.lines[1], "│   └── d/");
    assert_eq!(out.lines[200], format!("│   {}└── d/", "    ".repeat(199)));
    assert_eq!(out.lines[201], "└── z");
    assert_eq!(out.end, Request::Done);
}

#[test]
fn walker_asks_in_depth_first_order() {
    let disk = Disk::new().dir("r", &["b", "a"]).dir("r/a", &["x"]);
    let out = walk(&disk, "r", &[]);
    assert_eq!(
        out.asked,
        vec![
            Request::List("r".to_string()),
            Request::Probe("r/a".to_string()),
            Request::List("r/a".to_string()),
            Request::Probe("r/a/x".to_string()),
            Request::Probe("r/b".to_string()),
        ]
    );
}

#[test]
fn phases_follow_the_requests() {
    let walker = Walker::new("r".to_string(), Vec::new());
    assert_eq!(walker.phase(), Phase::Listing);
    assert_eq!(walker.depth(), 0);
    assert_eq!(walker.request(), Request::List("r".to_string()));
    let raw = vec![DirectoryEntry::new("r/f".to_string(), "f".to_string())];
    let (walker, line) = walker.step(Reply::Listed(raw));
    assert_eq!(line, None);
    assert_eq!(walker.phase(), Phase::Probing);
    assert_eq!(walker.depth(), 1);
    assert_eq!(walker.request(), Request::Probe("r/f".to_string()));
    let (walker, line) = walker.step(Reply::Kind(false));
    assert_eq!(line, Some("└── f".to_string()));
    assert_eq!(walker.phase(), Phase::Finished);
    assert_eq!(walker.depth(), 0);
    assert_eq!(walker.request(), Request::Done);
}

#[test]
fn a_reply_that_was_not_asked_for_changes_nothing() {
    let walker = Walker::new("r".to_string(), Vec::new());
    let (walker, line) = walker.step(Reply::Kind(true));
    assert_eq!(line, None);
    assert_eq!(walker.request(), Request::List("r".to_string()));
    let raw = vec![DirectoryEntry::new("r/f".to_string(), "f".to_string())];
    let (walker, _) = walker.step(Reply::Listed(raw));
    let (walker, line) = walker.step(Reply::Listed(Vec::new()));
    assert_eq!(line, None);
    assert_eq!(walker.request(), Request::Probe("r/f".to_string()));
    let (walker, line) = walker.step(Reply::Unreadable("late".to_string()));
    assert_eq!(line, None);
    assert_eq!(walker.request(), Request::Probe("r/f".to_string()));
    let (walker, _) = walker.step(Reply::Kind(false));
    let (walker, line) = walker.step(Reply::Kind(true));
    assert_eq!(line, None);
    assert_eq!(walker.request(), Request::Done);
}

#[test]
fn an_aborted_walker_stays_aborted() {
    let walker = Walker::new("r".to_string(), Vec::new());
    let (walker, _) = walker.step(Reply::Unreadable("gone".to_string()));
    assert_eq!(walker.phase(), Phase::Aborted);
    let (walker, line) = walker.step(Reply::Listed(Vec::new()));
    assert_eq!(line, None);
    let (walker, line) = walker.step(Reply::Kind(true));
    assert_eq!(line, None);
    assert_eq!(walker.request(), Request::Abort("gone".to_string()));
}

#[test]
fn directory_probed_as_such_is_listed_even_if_it_cannot_be_read() {
    let disk = Disk::new().dir("r", &["a", "b"]).locked("r/a", "denied");
    let out = walk(&disk, "r", &[]);
    assert_eq!(out.lines, vec!["├── a/"]);
    assert_eq!(out.end, Request::Abort("denied".to_string()));
}

#[test]
fn stack_is_as_deep_as_the_tree_at_every_round() {
    let disk = Disk::new()
        .dir("r", &["a", "b", "c"])
        .dir("r/a", &["x", "y"])
        .dir("r/a/x", &["deep"])
        .dir("r/a/x/deep", &[])
        .dir("r/c", &["z"]);
    let mut walker = Walker::new("r".to_string(), Vec::new());
    let mut lines = Vec::new();
    let mut stacks: Vec<Vec<bool>> = Vec::new();
    loop {
        match walker.phase() {
            Phase::Probing => assert_eq!(walker.path_last().len() + 1, walker.depth()),
            _ => assert_eq!(walker.path_last().len(), walker.depth()),
        }
        let request = walker.request();
        let Some(reply) = disk.answer(&request) else { break };
        if let Request::Probe(_) = request {
            stacks.push(walker.path_last().to_vec());
        }
        let (next, line) = walker.step(reply);
        walker = next;
        lines.extend(line);
    }
    assert_eq!(
        lines,
        vec![
            "├── a/",
            "│   ├── x/",
            "│   │   └── deep/",
            "│   └── y",
            "├── b",
            "└── c/",
            "    └── z",
        ]
    );
    assert_eq!(
        stacks,
        vec![
            vec![],
            vec![false],
            vec![false, false],
            vec![false],
            vec![],
            vec![],
            vec![true],
        ]
    );
    assert!(walker.path_last().is_empty());
    assert_eq!(walker.depth(), 0);
}
