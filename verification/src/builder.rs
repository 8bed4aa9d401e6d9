//! The options of a walk, and the builder that makes a walk of a base directory and patterns.

use crate::cluster::{cluster_globs, clustered, groups_view, GroupView};
use crate::compile::{clone_strings, compile};
use crate::glob::{GlobError, GlobFault};
use crate::path::{join_path, path_joined, path_same, same_path, texts};
use crate::plan::{plan_of, strs};
use crate::walk::{walk_wf, walker_new, MultiGlobWalker, MultiGlobWalkerView, NodeWalkerView};
use vstd::prelude::*;

verus! {

/// The options of a walk.
#[derive(Clone, Copy, Debug, PartialEq, Eq, Structural)]
pub struct MultiGlobOptions {
    /// Whether symbolic links are followed.
    pub follow_links: bool,
    /// The greatest depth of a recursive walk, counted from where the walk starts.
    pub max_depth: usize,
    /// The greatest number of directories that a recursive walk keeps open, at least 1.
    pub max_open: usize,
    /// Whether a recursive walk stays on the file system of its root.
    pub same_file_system: bool,
    /// Whether globs are matched without regard to case.
    pub case_insensitive: bool,
}

/// The options that a builder starts with.
pub open spec fn default_options() -> MultiGlobOptions {
    MultiGlobOptions {
        follow_links: false,
        max_depth: usize::MAX,
        max_open: 10,
        same_file_system: false,
        case_insensitive: false,
    }
}

impl Default for MultiGlobOptions {
    fn default() -> (opts: Self)
        ensures
            opts == default_options(),
    {
        MultiGlobOptions {
            follow_links: false,
            max_depth: usize::MAX,
            max_open: 10,
            same_file_system: false,
            case_insensitive: false,
        }
    }
}

/// The settings of one recursive walk of a directory tree.
#[derive(Clone, Copy, Debug, PartialEq, Eq, Structural)]
pub struct WalkConfig {
    /// Entries deeper than this below the root are neither reported nor descended into.
    pub max_depth: usize,
    /// Whether symbolic links below the root are followed.
    pub follow_links: bool,
    /// Whether the root itself is followed where it is a symbolic link.
    pub follow_root_links: bool,
    /// The greatest number of directories kept open at a time.
    pub max_open: usize,
    /// Whether the walk stays on the file system of its root.
    pub same_file_system: bool,
    /// Whether the entries of a directory come in the order of their file names.
    pub sort_by_file_name: bool,
}

/// The settings of a walk that nothing was asked of: no limit of depth, no link followed but
/// the root, ten directories open, no order.
pub open spec fn plain_walk() -> WalkConfig {
    WalkConfig {
        max_depth: usize::MAX,
        follow_links: false,
        follow_root_links: true,
        max_open: 10,
        same_file_system: false,
        sort_by_file_name: false,
    }
}

impl WalkConfig {
    /// The settings of a walk that nothing was asked of.
    pub fn new() -> (config: Self)
        ensures
            config == plain_walk(),
    {
        WalkConfig {
            max_depth: usize::MAX,
            follow_links: false,
            follow_root_links: true,
            max_open: 10,
            same_file_system: false,
            sort_by_file_name: false,
        }
    }

    /// Sets the greatest depth.
    pub fn max_depth(self, depth: usize) -> (config: Self)
        ensures
            config == (WalkConfig { max_depth: depth, ..self }),
    {
        WalkConfig { max_depth: depth, ..self }
    }

    /// Sets whether the root is followed where it is a symbolic link.
    pub fn follow_root_links(self, yes: bool) -> (config: Self)
        ensures
            config == (WalkConfig { follow_root_links: yes, ..self }),
    {
        WalkConfig { follow_root_links: yes, ..self }
    }
}

impl MultiGlobOptions {
    /// The settings that these options ask of every recursive walk: entries in the order of
    /// their names, links followed or not, the number of open directories, and whether to
    /// stay on one file system. What `walkdir` holds otherwise is left as it is.
    pub fn configure_walkdir(&self, walkdir: WalkConfig) -> (config: WalkConfig)
        ensures
            config == self.configured(walkdir),
    {
        WalkConfig {
            sort_by_file_name: true,
            follow_links: self.follow_links,
            max_open: if self.max_open == 0 {
                1
            } else {
                self.max_open
            },
            same_file_system: self.same_file_system,
            ..walkdir
        }
    }

    /// What `configure_walkdir` makes of `walkdir`.
    pub open spec fn configured(self, walkdir: WalkConfig) -> WalkConfig {
        WalkConfig {
            sort_by_file_name: true,
            follow_links: self.follow_links,
            max_open: if self.max_open == 0 {
                1
            } else {
                self.max_open
            },
            same_file_system: self.same_file_system,
            ..walkdir
        }
    }
}

/// The builder of a walk: a base directory, the patterns to look for below it, and options.
#[derive(Debug)]
pub struct MultiGlobBuilder {
    base: String,
    patterns: Vec<String>,
    opts: MultiGlobOptions,
}

/// A builder as the contracts see it.
pub struct BuilderView {
    pub base: Seq<char>,
    pub patterns: Seq<Seq<char>>,
    pub opts: MultiGlobOptions,
}

impl View for MultiGlobBuilder {
    type V = BuilderView;

    closed spec fn view(&self) -> BuilderView {
        BuilderView { base: self.base@, patterns: texts(self.patterns@), opts: self.opts }
    }
}

/// Where the group with the base `group` is walked from, below the base `base` of the walk:
/// the two joined, or `base` as it was given where the joined path is the same path.
pub open spec fn group_base(base: Seq<char>, group: Seq<char>) -> Seq<char> {
    if path_same(path_joined(base, group), base) {
        base
    } else {
        path_joined(base, group)
    }
}

/// The stack of a walk after the first `n` of `groups` were added, each compiled and given
/// a walker of its own, or the first fault that the compiler found.
pub open spec fn stacked(
    groups: Seq<GroupView>,
    n: int,
    base: Seq<char>,
    opts: MultiGlobOptions,
    skip_invalid: bool,
) -> Result<Seq<NodeWalkerView>, GlobFault>
    decreases n,
{
    if n <= 0 {
        Ok(Seq::empty())
    } else {
        match stacked(groups, n - 1, base, opts, skip_invalid) {
            Err(fault) => Err(fault),
            Ok(stack) => match compile(plan_of(groups[n - 1].1), skip_invalid, opts.case_insensitive) {
                Err(fault) => Err(fault),
                Ok(plan) => Ok(
                    stack.push(
                        walker_new(
                            plan,
                            group_base(base, groups[n - 1].0),
                            path_same(path_joined(base, groups[n - 1].0), base),
                            opts,
                            true,
                        ),
                    ),
                ),
            },
        }
    }
}

/// The walk that a builder builds, or the first fault that the compiler found: the patterns
/// are clustered into groups, and the walkers of the groups are stacked so that the first
/// group is the first at work.
pub open spec fn built(b: BuilderView, skip_invalid: bool) -> Result<MultiGlobWalkerView, GlobFault> {
    let groups = clustered(b.patterns);
    match stacked(groups, groups.len() as int, b.base, b.opts, skip_invalid) {
        Ok(stack) => Ok(MultiGlobWalkerView { opts: b.opts, stack: stack.reverse() }),
        Err(fault) => Err(fault),
    }
}

/// A fault met at one of the first groups is the fault of stacking more of them.
proof fn lemma_stacked_fault_stays(
    groups: Seq<GroupView>,
    i: int,
    n: int,
    base: Seq<char>,
    opts: MultiGlobOptions,
    skip_invalid: bool,
)
    requires
        0 <= i <= n,
        stacked(groups, i, base, opts, skip_invalid) is Err,
    ensures
        stacked(groups, n, base, opts, skip_invalid) == stacked(groups, i, base, opts, skip_invalid),
    decreases n - i,
{
    if i < n {
        lemma_stacked_fault_stays(groups, i, n - 1, base, opts, skip_invalid);
    }
}

impl MultiGlobBuilder {
    /// Construct a new multiglob walker builder from a base directory and a list of
    /// patterns. The walk looks below `base` for the paths that match `patterns`.
    pub fn new(base: &str, patterns: &[&str]) -> (builder: Self)
        ensures
            builder@ == (BuilderView { base: base@, patterns: strs(patterns@), opts: default_options() }),
    {
        let mut owned: Vec<String> = Vec::new();
        let mut i: usize = 0;
        while i < patterns.len()
            invariant
                i <= patterns.len(),
                texts(owned@) == strs(patterns@).take(i as int),
            decreases patterns.len() - i,
        {
            let ghost before = texts(owned@);
            owned.push(patterns[i].to_owned());
            assert(texts(owned@) =~= before.push(patterns@[i as int]@));
            assert(strs(patterns@).take(i + 1) =~= strs(patterns@).take(i as int).push(patterns@[i as int]@));
            i += 1;
        }
        assert(strs(patterns@).take(i as int) =~= strs(patterns@));
        MultiGlobBuilder { base: base.to_owned(), patterns: owned, opts: MultiGlobOptions::default() }
    }

    /// Builds the walk: one walker for each group of patterns, the first group on top.
    fn impl_build(&self, skip_invalid: bool) -> (r: Result<MultiGlobWalker, GlobError>)
        ensures
            match built(self@, skip_invalid) {
                Ok(walk) => r matches Ok(walker) && walker@ == walk && walk_wf(walker@),
                Err(fault) => r matches Err(error) && error@ == fault,
            },
            skip_invalid ==> r is Ok,
    {
        let mut walker = MultiGlobWalker::new(self.opts);
        let glob_groups = cluster_globs(self.patterns.as_slice());
        let ghost groups = groups_view(glob_groups@);
        let mut i: usize = 0;
        while i < glob_groups.len()
            invariant
                i <= glob_groups.len(),
                groups == groups_view(glob_groups@),
                groups == clustered(self@.patterns),
                walker@.opts == self.opts,
                stacked(groups, i as int, self@.base, self.opts, skip_invalid) == Ok::<
                    Seq<NodeWalkerView>,
                    GlobFault,
                >(walker@.stack),
                walk_wf(walker@),
            decreases glob_groups.len() - i,
        {
            let mut base = join_path(self.base.as_str(), glob_groups[i].0.as_str());
            let is_root = same_path(base.as_str(), self.base.as_str());
            if is_root {
                base = self.base.clone();
            }
            let patterns = clone_strings(&glob_groups[i].1);
            assert(texts(patterns@) == groups[i as int].1);
            match walker.add(base, is_root, patterns, skip_invalid) {
                Ok(()) => {},
                Err(error) => {
                    proof {
                        lemma_stacked_fault_stays(
                            groups,
                            i + 1,
                            groups.len() as int,
                            self@.base,
                            self.opts,
                            skip_invalid,
                        );
                    }
                    return Err(error);
                },
            }
            i += 1;
        }
        Ok(walker.rev())
    }

    /// Construct a multiglob walker; an error may occur when the globs are parsed.
    pub fn build(&self) -> (r: Result<MultiGlobWalker, GlobError>)
        ensures
            match built(self@, false) {
                Ok(walk) => r matches Ok(walker) && walker@ == walk && walk_wf(walker@),
                Err(fault) => r matches Err(error) && error@ == fault,
            },
    {
        self.impl_build(false)
    }

    /// Construct a multiglob walker and skip all invalid glob patterns.
    pub fn build_skip_invalid(&self) -> (walker: MultiGlobWalker)
        ensures
            built(self@, true) == Ok::<MultiGlobWalkerView, GlobFault>(walker@),
            walk_wf(walker@),
    {
        match self.impl_build(true) {
            Ok(walker) => walker,
            Err(_) => MultiGlobWalker::new(self.opts),
        }
    }

    /// Toggle whether the globs should be matched case insensitively or not.
    ///
    /// This is disabled by default.
    pub fn case_insensitive(self, yes: bool) -> (builder: Self)
        ensures
            builder@ == (BuilderView {
                opts: MultiGlobOptions { case_insensitive: yes, ..self@.opts },
                ..self@
            }),
    {
        let mut builder = self;
        builder.opts.case_insensitive = yes;
        builder
    }

    /// Set the maximum depth of all recursive globs (those containing `**`).
    ///
    /// The depth is counted not from the base directory, but from the point where a
    /// recursive pattern is met: with a maximum depth of 2 and the patterns `../a/**` and
    /// `b/**`, the deepest entries look like `../a/x/y` and `b/x/y`. Directories beyond the
    /// depth are not descended into.
    ///
    /// By default, there is no limit.
    pub fn max_depth(self, depth: usize) -> (builder: Self)
        ensures
            builder@ == (BuilderView { opts: MultiGlobOptions { max_depth: depth, ..self@.opts }, ..self@ }),
    {
        let mut builder = self;
        builder.opts.max_depth = depth;
        builder
    }

    /// Follow symbolic links. By default, this is disabled.
    ///
    /// When `yes` is `true`, symbolic links are followed as if they were normal directories
    /// and files: the yielded entries then speak of the target of the link, while the path
    /// is that of the link. A link that is broken or part of a loop gives an error.
    pub fn follow_links(self, yes: bool) -> (builder: Self)
        ensures
            builder@ == (BuilderView { opts: MultiGlobOptions { follow_links: yes, ..self@.opts }, ..self@ }),
    {
        let mut builder = self;
        builder.opts.follow_links = yes;
        builder
    }

    /// Set the maximum number of simultaneously open file descriptors used by a recursive
    /// walk. `n` must be at least `1`: if `n` is `0`, it is set to `1`.
    ///
    /// The setting has no effect on what the walk yields: it trades file descriptors for
    /// memory.
    pub fn max_open(self, n: usize) -> (builder: Self)
        ensures
            builder@ == (BuilderView {
                opts: MultiGlobOptions {
                    max_open: if n == 0 {
                        1
                    } else {
                        n
                    },
                    ..self@.opts
                },
                ..self@
            }),
    {
        let mut builder = self;
        let mut n = n;
        if n == 0 {
            n = 1;
        }
        builder.opts.max_open = n;
        builder
    }

    /// Do not cross file system boundaries: a recursive walk does not descend into
    /// directories that are on another file system than its root.
    pub fn same_file_system(self, yes: bool) -> (builder: Self)
        ensures
            builder@ == (BuilderView {
                opts: MultiGlobOptions { same_file_system: yes, ..self@.opts },
                ..self@
            }),
    {
        let mut builder = self;
        builder.opts.same_file_system = yes;
        builder
    }

    /// The options of the walk that this builder builds.
    pub fn options(&self) -> (opts: MultiGlobOptions)
        ensures
            opts == self@.opts,
    {
        self.opts
    }
}

} // verus!
