use multiglob::builder::{MultiGlobOptions, WalkConfig};
use multiglob::dir::FileKind;
use multiglob::{DirEntry, MultiGlobBuilder};

#[test]
fn file_kinds_exclude_one_another() {
    let kinds = [FileKind::Dir, FileKind::File, FileKind::Symlink, FileKind::Other];
    for kind in kinds {
        let hits = [kind.is_dir(), kind.is_file(), kind.is_symlink()].iter().filter(|h| **h).count();
        assert_eq!(hits, if kind == FileKind::Other { 0 } else { 1 });
    }
    assert!(FileKind::Dir.is_dir());
    assert!(FileKind::File.is_file());
    assert!(FileKind::Symlink.is_symlink());
}

#[test]
fn file_name_is_the_last_component() {
    let name = |path: &str| DirEntry::from_meta(path.to_string(), FileKind::File, false).file_name();
    assert_eq!(name("tmp/foo.txt"), "foo.txt");
    assert_eq!(name("/usr/bin/"), "bin");
    assert_eq!(name("foo.txt/."), "foo.txt");
    assert_eq!(name("foo.txt/.//"), "foo.txt");
    assert_eq!(name("single"), "single");
    assert_eq!(name("base/./x/asym"), "asym");
    // without a last component the whole path is the name
    assert_eq!(name("/"), "/");
    assert_eq!(name("foo.txt/.."), "foo.txt/..");
    assert_eq!(name(".."), "..");
    assert_eq!(name("./.."), "./..");
    assert_eq!(name(""), "");
}

#[test]
fn entry_from_a_probe() {
    let entry = DirEntry::from_meta("a/b".to_string(), FileKind::Dir, true);
    assert_eq!(entry.path(), "a/b");
    assert_eq!(entry.file_type(), FileKind::Dir);
    assert!(entry.follows_link());
    assert!(entry.path_is_symlink());
    let copy = entry.clone();
    assert_eq!(copy.path(), "a/b");
    assert_eq!(copy.file_type(), FileKind::Dir);
    assert!(copy.follows_link());
    assert_eq!(entry.into_path(), "a/b");
    let entry = DirEntry::from_meta("l".to_string(), FileKind::Symlink, false);
    assert!(entry.path_is_symlink());
    assert!(!entry.follows_link());
    let entry = DirEntry::from_meta("f".to_string(), FileKind::File, false);
    assert!(!entry.path_is_symlink());
}

#[test]
fn entry_from_a_walk() {
    // a link that the walk followed: the kind is that of the target
    let entry = DirEntry::from_walk("a/l".to_string(), FileKind::Dir, true);
    assert!(entry.path_is_symlink());
    assert!(entry.follows_link());
    assert_eq!(entry.file_type(), FileKind::Dir);
    // a link that the walk did not follow
    let entry = DirEntry::from_walk("a/l".to_string(), FileKind::Symlink, true);
    assert!(entry.path_is_symlink());
    assert!(!entry.follows_link());
    let entry = DirEntry::from_walk("a/f".to_string(), FileKind::File, false);
    assert!(!entry.path_is_symlink());
    assert!(!entry.follows_link());
    assert_eq!(entry.path(), "a/f");
}

#[test]
fn options_of_a_new_builder() {
    let opts = MultiGlobBuilder::new("base", &["*"]).options();
    let expected = MultiGlobOptions {
        follow_links: false,
        max_depth: usize::MAX,
        max_open: 10,
        same_file_system: false,
        case_insensitive: false,
    };
    assert_eq!(opts, expected);
    assert_eq!(MultiGlobOptions::default(), expected);
}

#[test]
fn builder_setters() {
    let b = MultiGlobBuilder::new("base", &["*"]);
    let opts = b.case_insensitive(true).options();
    assert!(opts.case_insensitive);
    let b = MultiGlobBuilder::new("base", &["*"]);
    assert_eq!(b.max_depth(3).options().max_depth, 3);
    let b = MultiGlobBuilder::new("base", &["*"]);
    assert_eq!(b.max_depth(0).options().max_depth, 0);
    let b = MultiGlobBuilder::new("base", &["*"]);
    assert!(b.follow_links(true).options().follow_links);
    let b = MultiGlobBuilder::new("base", &["*"]);
    assert_eq!(b.max_open(0).options().max_open, 1);
    let b = MultiGlobBuilder::new("base", &["*"]);
    assert_eq!(b.max_open(1).options().max_open, 1);
    let b = MultiGlobBuilder::new("base", &["*"]);
    assert_eq!(b.max_open(64).options().max_open, 64);
    let b = MultiGlobBuilder::new("base", &["*"]);
    assert!(b.same_file_system(true).options().same_file_system);
    let b = MultiGlobBuilder::new("base", &["*"]);
    let opts = b.follow_links(true).max_depth(5).follow_links(false).options();
    assert!(!opts.follow_links);
    assert_eq!(opts.max_depth, 5);
    assert_eq!(opts.max_open, 10);
}

#[test]
fn walk_settings_from_options() {
    let plain = WalkConfig::new();
    assert_eq!(
        plain,
        WalkConfig {
            max_depth: usize::MAX,
            follow_links: false,
            follow_root_links: true,
            max_open: 10,
            same_file_system: false,
            sort_by_file_name: false,
        }
    );
    let opts = MultiGlobOptions {
        follow_links: true,
        max_depth: 4,
        max_open: 0,
        same_file_system: true,
        case_insensitive: true,
    };
    let config = opts.configure_walkdir(plain.max_depth(2).follow_root_links(false));
    assert_eq!(
        config,
        WalkConfig {
            max_depth: 2,
            follow_links: true,
            follow_root_links: false,
            max_open: 1,
            same_file_system: true,
            sort_by_file_name: true,
        }
    );
}
