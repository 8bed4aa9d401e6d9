use multiglob::builder::WalkConfig;
use multiglob::dir::FileKind;
use multiglob::builder::MultiGlobOptions;
use multiglob::compile::WalkPlanNodeCompiled;
use multiglob::plan::WalkPlanNode;
use multiglob::walk::{NodeStep, NodeWalker, Outcome, Reply, Request, WalkItem};
use multiglob::{DirEntry, MultiGlobBuilder, MultiGlobWalker};
use std::collections::BTreeMap;
use std::path::{Path, PathBuf};

/// A file of the pretended file system.
#[derive(Clone, Debug)]
enum Node {
    Dir,
    File,
    Link(String),
}

/// A pretended file system: every file by its absolute path, and a working directory.
struct Disk {
    nodes: BTreeMap<Vec<String>, Node>,
    cwd: Vec<String>,
}

impl Disk {
    fn new(cwd: &str) -> Disk {
        let mut disk = Disk { nodes: BTreeMap::new(), cwd: Vec::new() };
        disk.nodes.insert(Vec::new(), Node::Dir);
        disk.mkdirp(cwd);
        disk.cwd = disk.resolve(cwd, true).unwrap();
        disk
    }

    fn set_cwd(&mut self, path: &str) {
        self.cwd = self.resolve(path, true).unwrap();
    }

    fn parts(path: &str) -> Vec<String> {
        path.split('/').filter(|p| !p.is_empty()).map(|p| p.to_string()).collect()
    }

    /// The place of `path` once every link on the way is followed; the last component is
    /// followed only with `follow_last`.
    fn resolve(&self, path: &str, follow_last: bool) -> Option<Vec<String>> {
        self.resolve_from(self.cwd.clone(), path, follow_last, 0)
    }

    fn resolve_from(&self, start: Vec<String>, path: &str, follow_last: bool, hops: usize) -> Option<Vec<String>> {
        if hops > 40 || path.is_empty() {
            return None;
        }
        let mut at = if path.starts_with('/') { Vec::new() } else { start };
        let parts = Disk::parts(path);
        for (i, part) in parts.iter().enumerate() {
            match self.nodes.get(&at) {
                Some(Node::Dir) => {}
                _ => return None,
            }
            let last = i + 1 == parts.len();
            if part == "." {
                continue;
            }
            if part == ".." {
                at.pop();
                continue;
            }
            let mut next = at.clone();
            next.push(part.clone());
            match self.nodes.get(&next) {
                None => return None,
                Some(Node::Link(target)) if !last || follow_last => {
                    at = self.resolve_from(at, target, true, hops + 1)?;
                }
                Some(_) => at = next,
            }
        }
        if self.nodes.contains_key(&at) {
            Some(at)
        } else {
            None
        }
    }

    fn kind_at(&self, place: &Vec<String>) -> FileKind {
        match self.nodes.get(place) {
            Some(Node::Dir) => FileKind::Dir,
            Some(Node::File) => FileKind::File,
            Some(Node::Link(_)) => FileKind::Symlink,
            None => FileKind::Other,
        }
    }

    fn symlink_metadata(&self, path: &str) -> Option<FileKind> {
        self.resolve(path, false).map(|place| self.kind_at(&place))
    }

    fn metadata(&self, path: &str) -> Option<FileKind> {
        self.resolve(path, true).map(|place| self.kind_at(&place))
    }

    fn is_there(&self, path: &str) -> bool {
        self.resolve(path, true).is_some()
    }

    fn read_dir(&self, path: &str) -> Vec<String> {
        let place = match self.resolve(path, true) {
            Some(place) => place,
            None => return Vec::new(),
        };
        let mut names = Vec::new();
        for key in self.nodes.keys() {
            if key.len() == place.len() + 1 && key[..place.len()] == place[..] {
                names.push(key[place.len()].clone());
            }
        }
        names.sort();
        names
    }

    fn absolute(&self, path: &str) -> Vec<String> {
        let mut at = if path.starts_with('/') { Vec::new() } else { self.cwd.clone() };
        at.extend(Disk::parts(path));
        at
    }

    fn mkdirp(&mut self, path: &str) {
        let full = self.absolute(path);
        for n in 1..=full.len() {
            self.nodes.entry(full[..n].to_vec()).or_insert(Node::Dir);
        }
    }

    fn touch(&mut self, path: &str) {
        let full = self.absolute(path);
        self.nodes.insert(full, Node::File);
    }

    /// Makes `link` a symbolic link to the absolute path of `target`.
    fn symlink(&mut self, target: &str, link: &str) {
        let target = format!("/{}", self.absolute(target).join("/"));
        let full = self.absolute(link);
        self.nodes.insert(full, Node::Link(target));
    }
}

/// One directory that a pretended recursive walk has open.
struct Level {
    paths: Vec<String>,
    next: usize,
}

/// A pretended recursive walk, which goes as the walk of the `walkdir` crate goes.
struct Walk {
    config: WalkConfig,
    start: Option<String>,
    levels: Vec<Level>,
    ancestors: Vec<Vec<String>>,
}

impl Walk {
    fn new(root: &str, config: WalkConfig) -> Walk {
        Walk { config, start: Some(root.to_string()), levels: Vec::new(), ancestors: Vec::new() }
    }

    fn push(&mut self, disk: &Disk, path: &str) {
        let mut names = disk.read_dir(path);
        if !self.config.sort_by_file_name {
            names.reverse();
        }
        let paths = names.iter().map(|n| Path::new(path).join(n).to_string_lossy().into_owned()).collect();
        self.levels.push(Level { paths, next: 0 });
        self.ancestors.push(disk.resolve(path, true).unwrap_or_default());
    }

    fn handle(&mut self, disk: &Disk, path: String, depth: usize) -> WalkItem {
        let mut kind = match disk.symlink_metadata(&path) {
            Some(kind) => kind,
            None => return WalkItem::Failed,
        };
        let mut followed = false;
        if self.config.follow_links && kind == FileKind::Symlink {
            kind = match disk.metadata(&path) {
                Some(kind) => kind,
                None => return WalkItem::Failed,
            };
            followed = true;
            if kind == FileKind::Dir {
                let place = disk.resolve(&path, true).unwrap();
                if self.ancestors.contains(&place) {
                    return WalkItem::Failed;
                }
            }
        }
        if kind == FileKind::Dir {
            self.push(disk, &path);
        } else if depth == 0 && kind == FileKind::Symlink && self.config.follow_root_links {
            match disk.metadata(&path) {
                Some(FileKind::Dir) => self.push(disk, &path),
                Some(_) => {}
                None => return WalkItem::Failed,
            }
        }
        WalkItem::Entry { path, kind, path_is_symlink: kind == FileKind::Symlink || followed }
    }

    fn next(&mut self, disk: &Disk) -> WalkItem {
        if let Some(root) = self.start.take() {
            return self.handle(disk, root, 0);
        }
        loop {
            let depth = self.levels.len();
            if depth == 0 {
                return WalkItem::End;
            }
            if depth > self.config.max_depth {
                self.levels.pop();
                self.ancestors.pop();
                continue;
            }
            let level = self.levels.last_mut().unwrap();
            if level.next >= level.paths.len() {
                self.levels.pop();
                self.ancestors.pop();
                continue;
            }
            let path = level.paths[level.next].clone();
            level.next += 1;
            return self.handle(disk, path, depth);
        }
    }
}

/// What a walk gave: its entries in the order in which they came, and the number of errors.
struct Results {
    ents: Vec<DirEntry>,
    errs: usize,
    walks: usize,
}

impl Results {
    fn paths(&self) -> Vec<PathBuf> {
        self.ents.iter().map(|e| PathBuf::from(e.path())).collect()
    }

    fn sorted_paths(&self) -> Vec<PathBuf> {
        let mut paths = self.paths();
        paths.sort();
        paths
    }
}

/// Runs a walk to its end against the pretended file system.
fn run(disk: &Disk, mut walker: MultiGlobWalker) -> Results {
    let mut results = Results { ents: Vec::new(), errs: 0, walks: 0 };
    let mut walks: Vec<Walk> = Vec::new();
    for _ in 0..100_000 {
        let reply = match walker.request() {
            Request::Done => return results,
            Request::Metadata { path } => Reply::Metadata(disk.metadata(&path)),
            Request::LinkMetadata { path } => Reply::Metadata(disk.symlink_metadata(&path)),
            Request::Exists { path } => Reply::Exists(disk.is_there(&path)),
            Request::Walk { root, config, resume } => {
                if !resume {
                    walks.push(Walk::new(&root, config));
                    results.walks += 1;
                }
                let item = walks.last_mut().unwrap().next(disk);
                if let WalkItem::End = item {
                    walks.pop();
                }
                Reply::Walk(item)
            }
        };
        match walker.advance(reply) {
            Outcome::Pending => {}
            Outcome::Entry(entry) => results.ents.push(entry),
            Outcome::Failed => results.errs += 1,
        }
    }
    panic!("the walk did not end");
}

/// The plain recursive walk of `root`, for comparison.
fn plain_walk(disk: &Disk, root: &str, config: WalkConfig) -> Results {
    let mut results = Results { ents: Vec::new(), errs: 0, walks: 1 };
    let mut walk = Walk::new(root, config);
    loop {
        match walk.next(disk) {
            WalkItem::End => return results,
            WalkItem::Failed => results.errs += 1,
            WalkItem::Entry { path, kind, path_is_symlink } => {
                results.ents.push(DirEntry::from_walk(path, kind, path_is_symlink))
            }
        }
    }
}

fn mg_collect_custom(
    disk: &Disk,
    base: &str,
    patterns: &[&str],
    build: impl Fn(MultiGlobBuilder) -> MultiGlobBuilder,
) -> Results {
    run(disk, build(MultiGlobBuilder::new(base, patterns)).build().unwrap())
}

fn mg_collect_no_err(disk: &Disk, base: &str, patterns: &[&str]) -> Results {
    mg_collect_custom(disk, base, patterns, |x| x)
}

fn paths(list: &[&str]) -> Vec<PathBuf> {
    list.iter().map(|p| PathBuf::from(p)).collect()
}

/// A directory `/tmp/t` with `base/x`, `a/b`, files and links.
fn setup_dir_with_syms() -> Disk {
    let mut disk = Disk::new("/tmp/t");
    let base = "base/x";
    disk.mkdirp(base);
    disk.mkdirp("a/b");
    disk.symlink("a", &format!("{base}/asym"));
    disk.symlink("a/b", "a/bsym");
    disk.touch("a/b/c");
    disk.touch(&format!("{base}/d.1"));
    disk.touch(&format!("{base}/d.2"));
    disk.touch(&format!("{base}/d.3"));
    disk
}

#[test]
fn test_walk_missing() {
    let disk = setup_dir_with_syms();

    let res = mg_collect_no_err(&disk, "/tmp/t/base/x", &["", "asym", "wrong"]);
    assert_eq!(res.sorted_paths(), paths(&["/tmp/t/base/x", "/tmp/t/base/x/asym"]));

    let res = mg_collect_no_err(&disk, "/tmp/t/base/xyz", &["", "asym", "wrong"]);
    assert_eq!(res.sorted_paths(), Vec::<PathBuf>::new());

    let res = mg_collect_no_err(&disk, "nope", &["**"]);
    assert_eq!(res.sorted_paths(), Vec::<PathBuf>::new());

    let res = mg_collect_no_err(&disk, "nope", &["*"]);
    assert_eq!(res.sorted_paths(), Vec::<PathBuf>::new());

    let res = mg_collect_no_err(&disk, "../nope", &["*"]);
    assert_eq!(res.sorted_paths(), Vec::<PathBuf>::new());
}

#[test]
fn test_walk_path() {
    let disk = setup_dir_with_syms();

    let res = mg_collect_no_err(&disk, "/tmp/t/base/x", &[]);
    assert_eq!(res.sorted_paths(), Vec::<PathBuf>::new());

    let res = mg_collect_no_err(&disk, "/tmp/t/a", &["b"]);
    assert_eq!(res.sorted_paths(), paths(&["/tmp/t/a/b"]));

    let res = mg_collect_no_err(&disk, "/tmp/t/a", &["b/c"]);
    assert_eq!(res.sorted_paths(), paths(&["/tmp/t/a/b/c"]));

    let res = mg_collect_no_err(&disk, "/tmp/t/a", &["b", "b/c"]);
    assert_eq!(res.sorted_paths(), paths(&["/tmp/t/a/b", "/tmp/t/a/b/c"]));

    let res = mg_collect_no_err(&disk, "/tmp/t/base/x", &["."]);
    assert_eq!(res.sorted_paths(), paths(&["/tmp/t/base/x"]));

    let res = mg_collect_no_err(&disk, "/tmp/t/base/x", &[""]);
    assert_eq!(res.sorted_paths(), paths(&["/tmp/t/base/x"]));
}

#[test]
fn test_walk_glob() {
    let disk = setup_dir_with_syms();

    let res = mg_collect_no_err(&disk, "/tmp/t/base/x", &["a*"]);
    assert_eq!(res.sorted_paths(), paths(&["/tmp/t/base/x/asym"]));

    let res = mg_collect_no_err(&disk, "/tmp/t/base/x", &["d.{1,2}", "asym"]);
    assert_eq!(
        res.sorted_paths(),
        paths(&["/tmp/t/base/x/asym", "/tmp/t/base/x/d.1", "/tmp/t/base/x/d.2"])
    );

    let res = mg_collect_no_err(&disk, "/tmp/t/base/x", &["d.[12]", "asym"]);
    assert_eq!(
        res.sorted_paths(),
        paths(&["/tmp/t/base/x/asym", "/tmp/t/base/x/d.1", "/tmp/t/base/x/d.2"])
    );

    let res = mg_collect_no_err(&disk, "/tmp/t/base/x", &["d.{1,2}", "."]);
    assert_eq!(
        res.sorted_paths(),
        paths(&["/tmp/t/base/x", "/tmp/t/base/x/d.1", "/tmp/t/base/x/d.2"])
    );
}

#[test]
fn test_walk_rel() {
    let mut disk = setup_dir_with_syms();
    disk.set_cwd("/tmp/t/base/x");

    let res = mg_collect_no_err(&disk, "", &[]);
    assert_eq!(res.sorted_paths(), Vec::<PathBuf>::new());

    for b in ["", "."] {
        for p in ["", "."] {
            let res = mg_collect_no_err(&disk, b, &[p]);
            assert_eq!(res.sorted_paths(), vec![PathBuf::from(".")]);
        }
    }

    let res = mg_collect_no_err(&disk, ".", &["d.1"]);
    assert_eq!(res.sorted_paths(), vec![PathBuf::from("./d.1")]);

    let res = mg_collect_no_err(&disk, ".", &["d.[12]", ""]);
    assert_eq!(
        res.sorted_paths(),
        vec![PathBuf::from("."), PathBuf::from("./d.1"), PathBuf::from("./d.2")]
    );

    let res = mg_collect_no_err(&disk, "..", &[""]);
    assert_eq!(res.sorted_paths(), vec![PathBuf::from("..")]);

    let res = mg_collect_no_err(&disk, ".", &[".."]);
    assert_eq!(res.sorted_paths(), vec![PathBuf::from("./..")]);

    let res = mg_collect_no_err(&disk, "", &[".."]);
    assert_eq!(res.sorted_paths(), vec![PathBuf::from("./..")]);
}

#[test]
fn test_walk_loop() {
    let mut disk = Disk::new("/tmp/t");
    disk.mkdirp("x/base/a/b");
    disk.symlink("x", "x/base/a/b/c");

    let res = mg_collect_no_err(&disk, "/tmp/t/x/base", &["**"]);
    assert_eq!(
        res.sorted_paths(),
        paths(&["/tmp/t/x/base", "/tmp/t/x/base/a", "/tmp/t/x/base/a/b", "/tmp/t/x/base/a/b/c"])
    );

    let res = mg_collect_custom(&disk, "/tmp/t/x/base", &["**"], |b| b.follow_links(true));
    assert_eq!(res.errs, 1);
    assert_eq!(
        res.sorted_paths(),
        paths(&[
            "/tmp/t/x/base",
            "/tmp/t/x/base/a",
            "/tmp/t/x/base/a/b",
            "/tmp/t/x/base/a/b/c",
            "/tmp/t/x/base/a/b/c/base",
            "/tmp/t/x/base/a/b/c/base/a",
            "/tmp/t/x/base/a/b/c/base/a/b"
        ])
    );
}

fn sorted_config() -> WalkConfig {
    WalkConfig {
        max_depth: usize::MAX,
        follow_links: false,
        follow_root_links: true,
        max_open: 10,
        same_file_system: false,
        sort_by_file_name: true,
    }
}

fn assert_same_entries(a: &Results, b: &Results) {
    assert_eq!(a.errs, b.errs);
    assert_eq!(a.paths(), b.paths());
    for (x, y) in a.ents.iter().zip(b.ents.iter()) {
        assert_eq!(x.file_type(), y.file_type());
        assert_eq!(x.path_is_symlink(), y.path_is_symlink());
        assert_eq!(x.follows_link(), y.follows_link());
    }
}

#[test]
fn empty_pattern_yields_the_base() {
    let disk = setup_dir_with_syms();
    let res = mg_collect_no_err(&disk, "/tmp/t/base/x", &[""]);
    assert_eq!(res.paths(), paths(&["/tmp/t/base/x"]));
    assert_eq!(res.errs, 0);
    assert_eq!(res.ents[0].file_type(), FileKind::Dir);
    assert!(!res.ents[0].path_is_symlink());
}

#[test]
fn base_and_literals_come_in_order() {
    let disk = setup_dir_with_syms();
    let res = mg_collect_no_err(&disk, "/tmp/t/base/x", &["wrong", "d.2", "asym", "", "d.1"]);
    assert_eq!(
        res.paths(),
        paths(&["/tmp/t/base/x", "/tmp/t/base/x/asym", "/tmp/t/base/x/d.1", "/tmp/t/base/x/d.2"])
    );
    assert_eq!(res.walks, 0);
}

#[test]
fn globs_come_in_the_order_of_names() {
    let disk = setup_dir_with_syms();
    let res = mg_collect_no_err(&disk, "/tmp/t/base/x", &["d.{1,2}", "asym"]);
    assert_eq!(
        res.paths(),
        paths(&["/tmp/t/base/x/asym", "/tmp/t/base/x/d.1", "/tmp/t/base/x/d.2"])
    );
    let res = mg_collect_no_err(&disk, "/tmp/t/base/x", &["d.{1,2}", "."]);
    assert_eq!(
        res.paths(),
        paths(&["/tmp/t/base/x", "/tmp/t/base/x/d.1", "/tmp/t/base/x/d.2"])
    );
}

#[test]
fn double_star_is_the_plain_walk() {
    let disk = setup_dir_with_syms();
    for base in ["/tmp/t/base/x", "/tmp/t/base/x/asym", "/tmp/t", "/tmp/t/a/bsym"] {
        for follow_links in [false, true] {
            let res = mg_collect_custom(&disk, base, &["**"], |b| b.follow_links(follow_links));
            let plain = plain_walk(&disk, base, WalkConfig { follow_links, ..sorted_config() });
            assert!(!plain.ents.is_empty());
            assert_same_entries(&res, &plain);
        }
    }
    let res = mg_collect_no_err(&disk, "/tmp/t/base/x", &["**"]);
    assert_eq!(
        res.paths(),
        paths(&[
            "/tmp/t/base/x",
            "/tmp/t/base/x/asym",
            "/tmp/t/base/x/d.1",
            "/tmp/t/base/x/d.2",
            "/tmp/t/base/x/d.3"
        ])
    );
    // the link is not gone down into, and it is seen as a link
    assert_eq!(res.ents[1].file_type(), FileKind::Symlink);
    assert!(res.ents[1].path_is_symlink());
    assert!(!res.ents[1].follows_link());
}

#[test]
fn double_star_below_a_literal_path() {
    let disk = setup_dir_with_syms();
    for path in ["base/x", "base/x/asym", "base/x/asym/b"] {
        for follow_links in [false, true] {
            let pattern = format!("{path}/**");
            let res = mg_collect_custom(&disk, "/tmp/t", &[pattern.as_str()], |b| b.follow_links(follow_links));
            let root = format!("/tmp/t/./{path}");
            let plain = plain_walk(
                &disk,
                &root,
                WalkConfig { follow_links, follow_root_links: false, ..sorted_config() },
            );
            assert!(!plain.ents.is_empty());
            assert_same_entries(&res, &plain);
        }
    }
}

#[test]
fn double_star_with_max_depth() {
    let mut disk = setup_dir_with_syms();
    disk.mkdirp("base/x/y/z/w");
    disk.touch("base/x/y/z/w/deep");
    disk.touch("base/x/y/f");
    let res = mg_collect_custom(&disk, "/tmp/t/base", &["x/**"], |b| b.follow_links(true).max_depth(2));
    let plain = plain_walk(
        &disk,
        "/tmp/t/base/./x",
        WalkConfig { follow_links: true, max_depth: 2, follow_root_links: false, ..sorted_config() },
    );
    assert_same_entries(&res, &plain);
    assert_eq!(
        res.sorted_paths(),
        paths(&[
            "/tmp/t/base/x",
            "/tmp/t/base/x/asym",
            "/tmp/t/base/x/asym/b",
            "/tmp/t/base/x/asym/bsym",
            "/tmp/t/base/x/d.1",
            "/tmp/t/base/x/d.2",
            "/tmp/t/base/x/d.3",
            "/tmp/t/base/x/y",
            "/tmp/t/base/x/y/f",
            "/tmp/t/base/x/y/z",
        ])
    );
    for entry in &res.ents {
        let below = Path::new(entry.path()).strip_prefix("/tmp/t/base/x").unwrap();
        assert!(below.components().count() <= 2);
    }
}

#[test]
fn depth_counts_from_the_recursive_segment() {
    let mut disk = Disk::new("/r");
    disk.mkdirp("a/b/c/d/e");
    disk.mkdirp("p/q/r/s");
    let res = mg_collect_custom(&disk, "/r", &["a/b/**", "p/**"], |b| b.max_depth(1));
    assert_eq!(res.sorted_paths(), paths(&["/r/a/b", "/r/a/b/c", "/r/p", "/r/p/q"]));
    let res = mg_collect_custom(&disk, "/r", &["a/*/c/**"], |b| b.max_depth(1));
    assert_eq!(res.sorted_paths(), paths(&["/r/a/b/c", "/r/a/b/c/d"]));
    let res = mg_collect_custom(&disk, "/r", &["**"], |b| b.max_depth(0));
    assert_eq!(res.sorted_paths(), paths(&["/r"]));
}

#[test]
fn missing_group_base_is_no_error() {
    let disk = setup_dir_with_syms();
    for pattern in ["*", "**", "x/*", "x/**", "[ab]"] {
        let res = mg_collect_no_err(&disk, "nope", &[pattern]);
        assert!(res.ents.is_empty());
        assert_eq!(res.errs, 0);
    }
}

#[test]
fn nested_wildcards_spawn_walkers() {
    let mut disk = setup_dir_with_syms();
    disk.mkdirp("base/y");
    disk.touch("base/y/d.9");
    disk.touch("base/y/e.1");
    let res = mg_collect_no_err(&disk, "/tmp/t", &["base/*/d.*"]);
    assert_eq!(
        res.paths(),
        paths(&[
            "/tmp/t/base/x/d.1",
            "/tmp/t/base/x/d.2",
            "/tmp/t/base/x/d.3",
            "/tmp/t/base/y/d.9"
        ])
    );
    // a directory that is a result is handed out before what lies in it
    let res = mg_collect_no_err(&disk, "/tmp/t", &["base/?", "base/*/d.1", "base/y/e.*"]);
    assert_eq!(
        res.paths(),
        paths(&["/tmp/t/base/x", "/tmp/t/base/x/d.1", "/tmp/t/base/y", "/tmp/t/base/y/e.1"])
    );
}

#[test]
fn links_are_followed_only_where_asked() {
    let disk = setup_dir_with_syms();
    // behind a wildcard a literal link is not gone through without the option
    let res = mg_collect_no_err(&disk, "/tmp/t/base", &["*/asym", "*/asym/b"]);
    assert_eq!(res.paths(), paths(&["/tmp/t/base/x/asym"]));
    assert_eq!(res.ents[0].file_type(), FileKind::Symlink);
    assert!(res.ents[0].path_is_symlink());
    assert!(!res.ents[0].follows_link());
    let res = mg_collect_custom(&disk, "/tmp/t/base", &["*/asym", "*/asym/b"], |b| b.follow_links(true));
    assert_eq!(res.paths(), paths(&["/tmp/t/base/x/asym", "/tmp/t/base/x/asym/b"]));
    assert_eq!(res.ents[0].file_type(), FileKind::Dir);
    assert!(res.ents[0].path_is_symlink());
    assert!(res.ents[0].follows_link());
    assert!(!res.ents[1].path_is_symlink());
    // behind the literal base of a group the file system resolves the link
    let res = mg_collect_no_err(&disk, "/tmp/t/base/x", &["asym/b/*"]);
    assert_eq!(res.sorted_paths(), paths(&["/tmp/t/base/x/asym/b", "/tmp/t/base/x/asym/b/c"]));
    // a broken link is skipped where it is to be followed, and seen where it is not
    let mut disk = Disk::new("/r");
    disk.symlink("gone", "dangling");
    let res = mg_collect_no_err(&disk, "/r", &["dangling"]);
    assert_eq!(res.paths(), paths(&["/r/dangling"]));
    let res = mg_collect_custom(&disk, "/r", &["dangling"], |b| b.follow_links(true));
    assert!(res.ents.is_empty());
    assert_eq!(res.errs, 0);
}

#[test]
fn self_entry_of_a_linked_base() {
    let disk = setup_dir_with_syms();
    let res = mg_collect_no_err(&disk, "/tmp/t/base/x/asym", &[""]);
    assert_eq!(res.paths(), paths(&["/tmp/t/base/x/asym"]));
    // the base is always looked at through the link
    assert_eq!(res.ents[0].file_type(), FileKind::Dir);
    assert!(res.ents[0].path_is_symlink());
    assert!(res.ents[0].follows_link());
}

#[test]
fn case_insensitive_globs() {
    let mut disk = Disk::new("/r");
    disk.touch("README.md");
    disk.touch("readme.txt");
    disk.touch("other");
    let res = mg_collect_no_err(&disk, "/r", &["readme.*"]);
    assert_eq!(res.paths(), paths(&["/r/readme.txt"]));
    let res = mg_collect_custom(&disk, "/r", &["readme.*"], |b| b.case_insensitive(true));
    assert_eq!(res.paths(), paths(&["/r/README.md", "/r/readme.txt"]));
    // a literal pattern is looked up by name, whatever the option says
    let res = mg_collect_custom(&disk, "/r", &["readme.md"], |b| b.case_insensitive(true));
    assert!(res.ents.is_empty());
}

#[test]
fn groups_come_in_the_order_of_their_first_patterns() {
    let mut disk = Disk::new("/r");
    disk.mkdirp("a");
    disk.mkdirp("b");
    disk.touch("a/1");
    disk.touch("a/2");
    disk.touch("b/1");
    disk.touch("top");
    let res = mg_collect_no_err(&disk, "/r", &["b/*", "top", "a/*", "b/1"]);
    assert_eq!(
        res.paths(),
        paths(&["/r/./b", "/r/./b/1", "/r/top", "/r/./a", "/r/./a/1", "/r/./a/2"])
    );
    // two groups may hand out the same path
    let res = mg_collect_no_err(&disk, "/r", &["a/*", "**/1"]);
    assert_eq!(
        res.paths(),
        paths(&["/r/./a", "/r/./a/1", "/r/./a/2", "/r/a/1", "/r/b/1"])
    );
}

#[test]
fn one_entry_is_handed_out_once_by_one_walker() {
    let mut disk = Disk::new("/r");
    disk.touch("ab");
    let res = mg_collect_no_err(&disk, "/r", &["a*", "*b", "?b", "ab"]);
    assert_eq!(res.paths(), paths(&["/r/ab"]));
}

#[test]
fn twice_the_same_walk() {
    let disk = setup_dir_with_syms();
    let patterns = ["**/c", "base/*/d.[13]", "", "a/b", "nope/*"];
    for follow_links in [false, true] {
        let first = mg_collect_custom(&disk, "/tmp/t", &patterns, |b| b.follow_links(follow_links));
        let second = mg_collect_custom(&disk, "/tmp/t", &patterns, |b| b.follow_links(follow_links));
        assert!(!first.ents.is_empty());
        assert_same_entries(&first, &second);
        assert_eq!(first.walks, second.walks);
    }
}

#[test]
fn outputs_lie_below_the_base() {
    let disk = setup_dir_with_syms();
    let res = mg_collect_custom(&disk, "/tmp/t/base", &["**", "x/*", "x/asym/b/c", ""], |b| b.follow_links(true));
    assert!(res.ents.len() > 5);
    for entry in &res.ents {
        assert!(Path::new(entry.path()).starts_with("/tmp/t/base"));
    }
    // upward patterns are reachable from the base through `..`
    let res = mg_collect_no_err(&disk, "/tmp/t/base/x", &["../../a/*"]);
    assert_eq!(
        res.paths(),
        paths(&["/tmp/t/base/x/./../../a", "/tmp/t/base/x/./../../a/b", "/tmp/t/base/x/./../../a/bsym"])
    );
}

#[test]
fn literal_patterns_read_no_directory() {
    let disk = setup_dir_with_syms();
    let builder = MultiGlobBuilder::new("/tmp/t", &["a/b/c", "a/b", "a/nope/x", "base/x/d.1", "zzz", ""]);
    let mut walker = builder.build().unwrap();
    let mut found = Vec::new();
    loop {
        let reply = match walker.request() {
            Request::Done => break,
            Request::Metadata { path } => Reply::Metadata(disk.metadata(&path)),
            Request::LinkMetadata { path } => Reply::Metadata(disk.symlink_metadata(&path)),
            other => panic!("a directory is read: {other:?}"),
        };
        match walker.advance(reply) {
            Outcome::Pending => {}
            Outcome::Entry(entry) => found.push(PathBuf::from(entry.path())),
            Outcome::Failed => panic!("no walk, no error"),
        }
    }
    found.sort();
    assert_eq!(
        found,
        paths(&["/tmp/t", "/tmp/t/a/b", "/tmp/t/a/b/c", "/tmp/t/base/x/d.1"])
    );
}

#[test]
fn requests_of_a_recursive_group() {
    let disk = setup_dir_with_syms();
    let builder = MultiGlobBuilder::new("/tmp/t/base/x", &["**"]).max_open(0).max_depth(7).same_file_system(true);
    let mut walker = builder.build().unwrap();
    match walker.request() {
        Request::Exists { path } => assert_eq!(path, "/tmp/t/base/x"),
        other => panic!("{other:?}"),
    }
    // an answer to another question changes nothing
    assert!(matches!(walker.advance(Reply::Metadata(Some(FileKind::Dir))), Outcome::Pending));
    assert!(matches!(walker.advance(Reply::Walk(WalkItem::End)), Outcome::Pending));
    assert!(matches!(walker.request(), Request::Exists { .. }));
    assert!(matches!(walker.advance(Reply::Exists(true)), Outcome::Pending));
    let expected = WalkConfig {
        max_depth: 7,
        follow_links: false,
        follow_root_links: true,
        max_open: 1,
        same_file_system: true,
        sort_by_file_name: true,
    };
    match walker.request() {
        Request::Walk { root, config, resume } => {
            assert_eq!(root, "/tmp/t/base/x");
            assert_eq!(config, expected);
            assert!(!resume);
        }
        other => panic!("{other:?}"),
    }
    assert!(matches!(walker.advance(Reply::Exists(true)), Outcome::Pending));
    let entry = WalkItem::Entry { path: "/tmp/t/base/x/d.1".to_string(), kind: FileKind::File, path_is_symlink: false };
    match walker.advance(Reply::Walk(entry)) {
        Outcome::Entry(entry) => assert_eq!(entry.path(), "/tmp/t/base/x/d.1"),
        other => panic!("{other:?}"),
    }
    match walker.request() {
        Request::Walk { config, resume, .. } => {
            assert_eq!(config, expected);
            assert!(resume);
        }
        other => panic!("{other:?}"),
    }
    // an entry that does not lie below the base is passed over
    let stray = WalkItem::Entry { path: "/elsewhere/d.1".to_string(), kind: FileKind::File, path_is_symlink: false };
    assert!(matches!(walker.advance(Reply::Walk(stray)), Outcome::Pending));
    assert!(matches!(walker.advance(Reply::Walk(WalkItem::Failed)), Outcome::Failed));
    assert!(matches!(walker.request(), Request::Walk { resume: true, .. }));
    assert!(matches!(walker.advance(Reply::Walk(WalkItem::End)), Outcome::Pending));
    assert!(matches!(walker.request(), Request::Done));
    assert!(matches!(walker.advance(Reply::Walk(WalkItem::End)), Outcome::Pending));
    assert!(matches!(walker.request(), Request::Done));
    let _ = disk;
}

#[test]
fn a_glob_group_reads_one_level() {
    let builder = MultiGlobBuilder::new("/r", &["*.rs"]).max_depth(9).follow_links(true);
    let mut walker = builder.build().unwrap();
    assert!(matches!(walker.request(), Request::Exists { .. }));
    walker.advance(Reply::Exists(true));
    match walker.request() {
        Request::Walk { config, .. } => {
            assert_eq!(config.max_depth, 1);
            assert!(config.follow_links);
            assert!(config.follow_root_links);
            assert_eq!(config.max_open, 10);
            assert!(config.sort_by_file_name);
        }
        other => panic!("{other:?}"),
    }
}

#[test]
fn probes_of_a_literal_link() {
    let builder = MultiGlobBuilder::new("/r", &["l"]).follow_links(true);
    let mut walker = builder.build().unwrap();
    match walker.request() {
        Request::LinkMetadata { path } => assert_eq!(path, "/r/l"),
        other => panic!("{other:?}"),
    }
    assert!(matches!(walker.advance(Reply::Metadata(Some(FileKind::Symlink))), Outcome::Pending));
    match walker.request() {
        Request::Metadata { path } => assert_eq!(path, "/r/l"),
        other => panic!("{other:?}"),
    }
    match walker.advance(Reply::Metadata(Some(FileKind::File))) {
        Outcome::Entry(entry) => {
            assert_eq!(entry.path(), "/r/l");
            assert_eq!(entry.file_type(), FileKind::File);
            assert!(entry.follows_link());
            assert!(entry.path_is_symlink());
        }
        other => panic!("{other:?}"),
    }
    assert!(matches!(walker.request(), Request::Done));
}

#[test]
fn invalid_globs_fail_the_build_or_are_skipped() {
    let mut disk = Disk::new("/r");
    disk.touch("a1");
    disk.touch("b{");
    let builder = MultiGlobBuilder::new("/r", &["a*", "b{"]);
    let error = builder.build().unwrap_err();
    assert_eq!(error.glob(), Some("b{"));
    let walker = builder.build_skip_invalid();
    let res = run(&disk, walker);
    assert_eq!(res.paths(), paths(&["/r/a1"]));
    assert_eq!(res.errs, 0);
}

#[test]
fn a_walk_of_no_group_is_done() {
    let mut walker = MultiGlobWalker::new(MultiGlobBuilder::new("x", &[]).options());
    assert!(matches!(walker.request(), Request::Done));
    assert!(matches!(walker.advance(Reply::Exists(true)), Outcome::Pending));
    let mut walker = walker.rev();
    assert!(matches!(walker.request(), Request::Done));
}

#[test]
fn added_groups_are_walked_from_the_top_of_the_stack() {
    let mut disk = Disk::new("/r");
    disk.mkdirp("one");
    disk.mkdirp("two");
    disk.touch("one/a");
    disk.touch("two/b");
    let opts = MultiGlobBuilder::new("", &[]).options();
    let mut walker = MultiGlobWalker::new(opts);
    walker.add("/r/one".to_string(), true, vec!["*".to_string()], false).unwrap();
    walker.add("/r/two".to_string(), true, vec!["b".to_string(), "".to_string()], false).unwrap();
    assert!(walker.add("/r".to_string(), true, vec!["[".to_string()], false).is_err());
    walker.add("/r".to_string(), true, vec!["[".to_string()], true).unwrap();
    let mut disk_walker = MultiGlobWalker::new(opts);
    disk_walker.add("/r/one".to_string(), true, vec!["*".to_string()], false).unwrap();
    disk_walker.add("/r/two".to_string(), true, vec!["b".to_string(), "".to_string()], false).unwrap();
    let res = run(&disk, walker);
    assert_eq!(res.paths(), paths(&["/r/two", "/r/two/b", "/r/one", "/r/one/a"]));
    let res = run(&disk, disk_walker.rev());
    assert_eq!(res.paths(), paths(&["/r/one", "/r/one/a", "/r/two", "/r/two/b"]));
}

/// A directory `/tmp/t` with `base/x/y`, `a/b`, a file and links.
fn setup_deep_dir_with_syms() -> Disk {
    let mut disk = Disk::new("/tmp/t");
    let base = "base/x/y";
    disk.mkdirp(base);
    disk.mkdirp("a/b");
    disk.symlink("a", &format!("{base}/asym"));
    disk.symlink("a/b", "a/bsym");
    disk.touch("a/b/c");
    disk
}

#[test]
fn double_star_at_root_rel() {
    let mut disk = setup_deep_dir_with_syms();
    disk.set_cwd("/tmp/t/base/x/y");
    for base in ["../y", "../y/asym"] {
        for follow_links in [false, true] {
            let res = mg_collect_custom(&disk, base, &["**"], |b| b.follow_links(follow_links));
            let plain = plain_walk(&disk, base, WalkConfig { follow_links, ..sorted_config() });
            assert!(plain.ents.len() >= 2);
            assert_same_entries(&res, &plain);
        }
    }
}

#[test]
fn double_star_at_path_rel() {
    let mut disk = setup_deep_dir_with_syms();
    disk.set_cwd("/tmp/t/base/x");
    for path in ["../y", "../y/asym"] {
        for follow_links in [false, true] {
            let pattern = format!("{path}/**");
            let res = mg_collect_custom(&disk, "y", &[pattern.as_str()], |b| b.follow_links(follow_links));
            let root = Path::new("y").join(path);
            let plain = plain_walk(
                &disk,
                &root.to_string_lossy(),
                WalkConfig { follow_links, follow_root_links: false, ..sorted_config() },
            );
            assert!(!plain.ents.is_empty());
            assert_eq!(res.errs, plain.errs);
            assert_eq!(res.sorted_paths(), plain.sorted_paths());
            for (x, y) in res.ents.iter().zip(plain.ents.iter()) {
                assert_eq!(x.file_type(), y.file_type());
                assert_eq!(x.path_is_symlink(), y.path_is_symlink());
            }
        }
    }
}

#[test]
fn the_base_is_handed_out_as_it_was_given() {
    let disk = setup_dir_with_syms();
    let res = mg_collect_no_err(&disk, "/tmp/t/base/x", &["", "d.1"]);
    assert_eq!(res.ents[0].path(), "/tmp/t/base/x");
    assert_eq!(res.ents[1].path(), "/tmp/t/base/x/d.1");
    assert_eq!(res.ents[1].file_name(), "d.1");
    assert_eq!(res.ents[0].file_name(), "x");
    let res = mg_collect_no_err(&disk, "/tmp/t/base/x/", &[""]);
    assert_eq!(res.ents[0].path(), "/tmp/t/base/x/");
}

#[test]
fn node_walker_steps() {
    let patterns = vec!["a".to_string(), "b/c".to_string(), "".to_string()];
    let node = WalkPlanNode::build(&patterns);
    let compiled = WalkPlanNodeCompiled::new(&node, false, false).unwrap();
    let opts = MultiGlobOptions::default();
    let mut walker = NodeWalker::new(compiled, "/r".to_string(), true, opts, true);
    assert!(!walker.is_exhausted());
    // first the base itself: its kind through any link, then whether it is a link
    assert!(matches!(walker.request(), Request::Metadata { path } if path == "/r"));
    match walker.advance(Reply::Metadata(Some(FileKind::Dir))) {
        NodeStep::Output(output) => {
            assert!(output.terminal.is_none());
            assert!(output.nodes.is_empty());
        }
        other => panic!("{other:?}"),
    }
    assert!(matches!(walker.request(), Request::LinkMetadata { path } if path == "/r"));
    match walker.advance(Reply::Metadata(Some(FileKind::Symlink))) {
        NodeStep::Output(output) => {
            let entry = output.terminal.unwrap();
            assert_eq!(entry.path(), "/r");
            assert_eq!(entry.file_type(), FileKind::Dir);
            assert!(entry.follows_link());
            assert!(output.nodes.is_empty());
        }
        other => panic!("{other:?}"),
    }
    // then the literal paths in the order of their keys
    assert!(matches!(walker.request(), Request::LinkMetadata { path } if path == "/r/a"));
    match walker.advance(Reply::Metadata(Some(FileKind::File))) {
        NodeStep::Output(output) => {
            assert_eq!(output.terminal.unwrap().path(), "/r/a");
            assert!(output.nodes.is_empty());
        }
        other => panic!("{other:?}"),
    }
    assert!(matches!(walker.request(), Request::LinkMetadata { path } if path == "/r/b"));
    match walker.advance(Reply::Metadata(Some(FileKind::Dir))) {
        NodeStep::Output(output) => {
            // `b` is no result, but it leads further
            assert!(output.terminal.is_none());
            assert_eq!(output.nodes.len(), 1);
            assert!(matches!(output.nodes[0].request(), Request::LinkMetadata { path } if path == "/r/b/c"));
        }
        other => panic!("{other:?}"),
    }
    assert!(walker.is_exhausted());
    assert!(matches!(walker.request(), Request::Done));
    assert!(matches!(walker.advance(Reply::Metadata(None)), NodeStep::Done));
}

#[test]
fn node_walker_skips_failed_probes_and_files() {
    let patterns = vec!["a/x".to_string(), "b/y".to_string()];
    let node = WalkPlanNode::build(&patterns);
    let compiled = WalkPlanNodeCompiled::new(&node, false, false).unwrap();
    let mut walker = NodeWalker::new(compiled, "r".to_string(), false, MultiGlobOptions::default(), false);
    assert!(matches!(walker.request(), Request::LinkMetadata { path } if path == "r/a"));
    match walker.advance(Reply::Metadata(None)) {
        NodeStep::Output(output) => assert!(output.terminal.is_none() && output.nodes.is_empty()),
        other => panic!("{other:?}"),
    }
    assert!(matches!(walker.request(), Request::LinkMetadata { path } if path == "r/b"));
    // a file leads nowhere
    match walker.advance(Reply::Metadata(Some(FileKind::File))) {
        NodeStep::Output(output) => assert!(output.terminal.is_none() && output.nodes.is_empty()),
        other => panic!("{other:?}"),
    }
    assert!(walker.is_exhausted());
}

#[test]
fn node_walker_of_a_walk_that_fails_and_ends() {
    let patterns = vec!["*".to_string()];
    let node = WalkPlanNode::build(&patterns);
    let compiled = WalkPlanNodeCompiled::new(&node, false, false).unwrap();
    // a walker that does not start a group takes its base for granted
    let mut walker = NodeWalker::new(compiled, "r".to_string(), false, MultiGlobOptions::default(), false);
    assert!(matches!(walker.request(), Request::Walk { resume: false, .. }));
    assert!(matches!(walker.advance(Reply::Walk(WalkItem::Failed)), NodeStep::Failed));
    assert!(matches!(walker.request(), Request::Walk { resume: true, .. }));
    assert!(!walker.is_exhausted());
    assert!(matches!(walker.advance(Reply::Walk(WalkItem::End)), NodeStep::Done));
}

#[test]
fn kinds_agree_with_metadata() {
    let disk = setup_dir_with_syms();
    let patterns = ["**", "base/x/asym", "a/bsym", "base/*/*", "", "a/b/c"];
    for follow_links in [false, true] {
        let res = mg_collect_custom(&disk, "/tmp/t", &patterns, |b| b.follow_links(follow_links));
        assert!(res.ents.len() > 10);
        for entry in &res.ents {
            let metadata = if entry.follows_link() {
                disk.metadata(entry.path())
            } else {
                disk.symlink_metadata(entry.path())
            };
            assert_eq!(metadata, Some(entry.file_type()), "{}", entry.path());
            if follow_links {
                assert_eq!(
                    entry.file_type().is_dir(),
                    disk.metadata(entry.path()) == Some(FileKind::Dir),
                    "{}",
                    entry.path()
                );
                assert!(!entry.file_type().is_symlink());
            }
        }
    }
}
