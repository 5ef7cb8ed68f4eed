use simple_archive::collect::{Answer, Collector, Request};
use simple_archive::error::ArchiveError;
use simple_archive::naming::{archive_name, base_len, is_hidden};
use simple_archive::path::{order_names, order_paths, Order, PathPart};
use simple_archive::select::{select_files, Candidate};
use simple_archive::walk::{DirEntry, Node, Walker};

fn name(s: &str) -> PathPart {
    PathPart::Normal(s.as_bytes().to_vec())
}

fn path(s: &str) -> Vec<PathPart> {
    let mut parts = Vec::new();
    if s.starts_with('/') {
        parts.push(PathPart::Root);
    }
    for word in s.split('/') {
        match word {
            "" => {}
            "." => parts.push(PathPart::Current),
            ".." => parts.push(PathPart::Parent),
            other => parts.push(name(other)),
        }
    }
    parts
}

fn text(parts: &Vec<PathPart>) -> String {
    archive_name(parts, 0).unwrap()
}

fn candidate(n: &str, id: &str) -> Candidate {
    Candidate { name: n.to_string(), identity: path(id) }
}

fn entry(n: &str, is_dir: bool) -> DirEntry {
    DirEntry { name: n.as_bytes().to_vec(), is_dir }
}

/// A made-up tree: the directories with their listings. Any other path
/// is a file.
fn listing(of: &str) -> Option<Vec<DirEntry>> {
    match of {
        "top" => Some(vec![
            entry(".git", true),
            entry("b.txt", false),
            entry("sub", true),
            entry(".env", false),
            entry("a.txt", false),
        ]),
        "top/.git" => Some(vec![entry("config", false)]),
        "top/sub" => Some(vec![entry("deep", true), entry("x", false)]),
        "top/sub/deep" => Some(vec![entry(".hidden", false), entry("y", false)]),
        "/abs/.secret" => Some(vec![entry("key", false)]),
        _ => None,
    }
}

/// Drives a collector over the made-up tree, and returns the names found
/// with the requests made.
fn collect(roots: &[&str], include_dotfiles: bool) -> Result<(Vec<Candidate>, Vec<String>), ArchiveError> {
    let mut collector = Collector::new(roots.iter().map(|r| path(r)).collect(), include_dotfiles)?;
    let mut log = Vec::new();
    let mut answer = Answer::Start;
    loop {
        match collector.step(answer)? {
            Request::Probe(p) => {
                log.push(format!("probe {}", text(&p)));
                answer = Answer::IsDir(listing(&text(&p)).is_some());
            }
            Request::List(p) => {
                log.push(format!("list {}", text(&p)));
                answer = match listing(&text(&p)) {
                    Some(entries) => Answer::Entries(entries),
                    None => Answer::Failed,
                };
            }
            Request::Resolve(p) => {
                log.push(format!("resolve {}", text(&p)));
                let mut canonical = path("/real");
                canonical.extend(p.into_iter().filter(|part| !matches!(part, PathPart::Root)));
                answer = Answer::Canonical(canonical);
            }
            Request::Finished => return Ok((collector.finish(), log)),
        }
    }
}

fn names(found: &Vec<Candidate>) -> Vec<String> {
    found.iter().map(|c| c.name.clone()).collect()
}

#[test]
fn dotfiles_are_left_out() {
    let (found, log) = collect(&["top"], false).unwrap();
    assert_eq!(names(&found), vec!["top/b.txt", "top/sub/deep/y", "top/sub/x", "top/a.txt"]);
    assert_eq!(
        log,
        vec![
            "probe top",
            "list top",
            "resolve top/b.txt",
            "list top/sub",
            "list top/sub/deep",
            "resolve top/sub/deep/y",
            "resolve top/sub/x",
            "resolve top/a.txt",
        ]
    );
}

#[test]
fn dotfiles_are_packed_on_request() {
    let (found, log) = collect(&["top"], true).unwrap();
    assert_eq!(
        names(&found),
        vec![
            "top/.git/config",
            "top/b.txt",
            "top/sub/deep/.hidden",
            "top/sub/deep/y",
            "top/sub/x",
            "top/.env",
            "top/a.txt",
        ]
    );
    assert!(log.contains(&"list top/.git".to_string()));
}

#[test]
fn one_dotfile_and_one_other() {
    let (without, _) = collect(&["top/sub/deep"], false).unwrap();
    assert_eq!(names(&without), vec!["deep/y"]);
    let (with, _) = collect(&["top/sub/deep"], true).unwrap();
    assert_eq!(names(&with), vec!["deep/.hidden", "deep/y"]);
}

#[test]
fn hidden_root_is_left_out_unless_included() {
    let (found, log) = collect(&["/abs/.secret", "top/a.txt"], false).unwrap();
    assert_eq!(names(&found), vec!["a.txt"]);
    assert_eq!(log, vec!["probe top/a.txt", "resolve top/a.txt"]);
    let (found, _) = collect(&["/abs/.secret", "top/.env"], true).unwrap();
    assert_eq!(names(&found), vec![".secret/key", ".env"]);
}

#[test]
fn names_keep_the_last_component_of_the_root() {
    let (found, _) = collect(&["/abs/file", "rel/file", "plain", "top/sub"], true).unwrap();
    assert_eq!(
        names(&found),
        vec!["file", "file", "plain", "sub/deep/.hidden", "sub/deep/y", "sub/x"]
    );
    assert_eq!(text(&found[0].identity), "/real/abs/file");
    assert_eq!(text(&found[1].identity), "/real/rel/file");
}

#[test]
fn roots_without_a_name_of_their_own() {
    let (found, _) = collect(&[".", "..", "/", "a/.."], true).unwrap();
    assert_eq!(names(&found), vec![".", "..", "/", ".."]);
}

#[test]
fn nothing_to_pack_without_paths() {
    assert_eq!(collect(&[], true).unwrap_err(), ArchiveError::NoInputPaths);
    assert_eq!(Collector::new(Vec::new(), false).unwrap_err(), ArchiveError::NoInputPaths);
}

#[test]
fn only_hidden_roots_gives_no_files() {
    let (found, log) = collect(&[".a", "x/.b"], false).unwrap();
    assert!(found.is_empty());
    assert!(log.is_empty());
}

#[test]
fn failed_answer_ends_the_run() {
    let mut collector = Collector::new(vec![path("top")], false).unwrap();
    assert!(matches!(collector.step(Answer::Start), Ok(Request::Probe(_))));
    assert!(matches!(collector.step(Answer::IsDir(true)), Ok(Request::List(_))));
    assert_eq!(collector.step(Answer::Failed).unwrap_err(), ArchiveError::IoError);
}

#[test]
fn answer_that_was_not_asked_for_ends_the_run() {
    let mut collector = Collector::new(vec![path("top")], false).unwrap();
    assert_eq!(collector.step(Answer::IsDir(true)).unwrap_err(), ArchiveError::IoError);
    assert!(matches!(collector.step(Answer::Start), Ok(Request::Probe(_))));
    assert_eq!(collector.step(Answer::Entries(vec![])).unwrap_err(), ArchiveError::IoError);
    assert_eq!(collector.step(Answer::Start).unwrap_err(), ArchiveError::IoError);
}

#[test]
fn name_that_is_not_utf8_is_refused() {
    let mut collector = Collector::new(vec![path("top")], false).unwrap();
    collector.step(Answer::Start).unwrap();
    collector.step(Answer::IsDir(true)).unwrap();
    let bad = DirEntry { name: vec![b'a', 0xff], is_dir: false };
    assert_eq!(
        collector.step(Answer::Entries(vec![bad])).unwrap_err(),
        ArchiveError::InvalidNameEncoding
    );
}

#[test]
fn archive_name_formula() {
    assert_eq!(archive_name(&path("/a/b/c"), 0), Ok("/a/b/c".to_string()));
    assert_eq!(archive_name(&path("/a/b/c"), 1), Ok("a/b/c".to_string()));
    assert_eq!(archive_name(&path("/a/b/c"), 2), Ok("b/c".to_string()));
    assert_eq!(archive_name(&path("/a/b/c"), 3), Ok("c".to_string()));
    assert_eq!(archive_name(&path("/a/b/c"), 4), Ok("".to_string()));
    assert_eq!(archive_name(&path("./x/../y"), 0), Ok("./x/../y".to_string()));
    assert_eq!(archive_name(&path("/"), 0), Ok("/".to_string()));
    assert_eq!(archive_name(&vec![name("d\u{e9}")], 0), Ok("d\u{e9}".to_string()));
    assert_eq!(
        archive_name(&vec![PathPart::Normal(vec![0xc3])], 0),
        Err(ArchiveError::InvalidNameEncoding)
    );
}

#[test]
fn hidden_means_last_name_starts_with_a_period() {
    assert!(is_hidden(&path(".git")));
    assert!(is_hidden(&path("a/b/.c")));
    assert!(is_hidden(&path("/.x")));
    assert!(!is_hidden(&path(".a/b")));
    assert!(!is_hidden(&path("a.b")));
    assert!(!is_hidden(&path(".")));
    assert!(!is_hidden(&path("..")));
    assert!(!is_hidden(&path("a/..")));
    assert!(!is_hidden(&path("/")));
    assert!(!is_hidden(&Vec::new()));
    assert!(!is_hidden(&vec![PathPart::Normal(vec![])]));
}

#[test]
fn base_is_the_length_of_the_parent() {
    assert_eq!(base_len(&path("a/b/c")), 2);
    assert_eq!(base_len(&path("/a")), 1);
    assert_eq!(base_len(&path("a")), 0);
    assert_eq!(base_len(&path(".")), 0);
    assert_eq!(base_len(&path("a/..")), 1);
    assert_eq!(base_len(&path("/")), 0);
    assert_eq!(base_len(&Vec::new()), 0);
}

#[test]
fn names_are_ordered_byte_by_byte() {
    assert_eq!(order_names(b"", b""), Order::Equal);
    assert_eq!(order_names(b"", b"a"), Order::Less);
    assert_eq!(order_names(b"a", b""), Order::Greater);
    assert_eq!(order_names(b"abc", b"abd"), Order::Less);
    assert_eq!(order_names(b"abc", b"ab"), Order::Greater);
    assert_eq!(order_names(b"abc", b"abc"), Order::Equal);
    assert_eq!(order_names(b"Z", b"a"), Order::Less);
    assert_eq!(order_names(&[0x7f], &[0x80]), Order::Less);
}

#[test]
fn paths_are_ordered_component_by_component() {
    assert_eq!(order_paths(&path("/a/b"), &path("/a-b")), Order::Less);
    assert_eq!(order_paths(&path("/a-b"), &path("/a/b")), Order::Greater);
    assert_eq!(order_paths(&path("/a"), &path("/a/b")), Order::Less);
    assert_eq!(order_paths(&path("/a/b"), &path("/a/b")), Order::Equal);
    assert_eq!(order_paths(&path("/b"), &path("/a/z")), Order::Greater);
    assert_eq!(order_paths(&path("/x"), &path("x")), Order::Less);
    assert_eq!(order_paths(&path("./x"), &path("../x")), Order::Less);
    assert_eq!(order_paths(&path("../x"), &path("x")), Order::Less);
    assert_eq!(order_paths(&Vec::new(), &path("/")), Order::Less);
    assert_eq!(order_paths(&Vec::new(), &Vec::new()), Order::Equal);
}

#[test]
fn same_file_twice_is_packed_once() {
    let found = vec![candidate("direct", "/data/file"), candidate("alias", "/data/file")];
    assert_eq!(select_files(&found), vec![0]);
    let found = vec![candidate("alias", "/data/file"), candidate("direct", "/data/file")];
    assert_eq!(select_files(&found), vec![0]);
}

#[test]
fn files_are_packed_in_the_order_of_their_canonical_paths() {
    let found = vec![
        candidate("n0", "/r/b"),
        candidate("n1", "/r/a-b/x"),
        candidate("n2", "/r/a/y"),
        candidate("n3", "/r/b"),
        candidate("n4", "/r/a"),
        candidate("n5", "/r/a/y"),
        candidate("n6", "/q"),
        candidate("n7", "/r/a-b/x"),
    ];
    assert_eq!(select_files(&found), vec![6, 4, 2, 1, 0]);
    assert_eq!(select_files(&Vec::new()), Vec::<usize>::new());
}

#[test]
fn selection_of_many() {
    let mut found = Vec::new();
    for i in 0..500u32 {
        let k = (i * 7919) % 250;
        found.push(candidate(&format!("n{}", i), &format!("/d/{:04}", k)));
    }
    let picked = select_files(&found);
    assert_eq!(picked.len(), 250);
    for w in picked.windows(2) {
        assert_eq!(order_paths(&found[w[0]].identity, &found[w[1]].identity), Order::Less);
    }
    for &p in picked.iter() {
        for earlier in 0..p {
            assert_ne!(
                order_paths(&found[earlier].identity, &found[p].identity),
                Order::Equal
            );
        }
    }
}

#[test]
fn walker_visits_depth_first_in_listing_order() {
    let mut walker = Walker::new();
    assert!(walker.is_done());
    assert!(walker.next().is_none());
    walker.enter(&path("r"), vec![entry("a", true), entry("b", false)]);
    let a = walker.next().unwrap();
    assert_eq!(text(&a.path), "r/a");
    assert!(a.is_dir);
    walker.enter(&a.path, vec![entry("1", false), entry("2", false)]);
    let mut seen = Vec::new();
    while let Some(node) = walker.next() {
        assert!(!node.is_dir);
        seen.push(text(&node.path));
    }
    assert_eq!(seen, vec!["r/a/1", "r/a/2", "r/b"]);
    walker.push(Node { path: path("lone"), is_dir: false });
    assert!(!walker.is_done());
    assert_eq!(text(&walker.next().unwrap().path), "lone");
    assert!(walker.is_done());
}

#[test]
fn walker_prunes_what_is_not_entered() {
    let mut walker = Walker::new();
    walker.enter(&path("r"), vec![entry("skip", true), entry("keep", true)]);
    let skip = walker.next().unwrap();
    assert_eq!(text(&skip.path), "r/skip");
    let keep = walker.next().unwrap();
    walker.enter(&keep.path, vec![entry("f", false)]);
    assert_eq!(text(&walker.next().unwrap().path), "r/keep/f");
    assert!(walker.next().is_none());
}
