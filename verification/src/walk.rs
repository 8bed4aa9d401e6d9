//! The walk: walkers that say what they need to know of the file system, take the answer,
//! and hand out the entries that match.

use crate::builder::{plain_walk, MultiGlobOptions, WalkConfig};
use crate::compile::{
    compile, compiled_wf, destinations_of, lemma_destinations_of, CompiledView, MatcherView,
    WalkNodeMatcher, WalkPlanNodeCompiled,
};
use crate::dir::{DirEntry, DirEntryView, FileKind};
use crate::glob::{match_into, set_globs, set_matches, GlobError, GlobSource};
use crate::path::{join_path, path_joined, path_stripped, strip_base, texts};
use crate::plan::{plan_of, WalkPlanNode};
use globset::GlobSet;
use vstd::prelude::*;

verus! {

/// How far a walker has come with the entry that it is looking at.
#[derive(Clone, Copy, Debug, PartialEq, Eq, Structural)]
pub enum Probe {
    /// Nothing is known of the entry yet.
    Idle,
    /// The base was found, followed through any link, to be of this kind; whether it is
    /// itself a link is not known yet.
    SelfTarget(FileKind),
    /// The literal path is a symbolic link that is to be followed; the kind of its target is
    /// not known yet.
    Link,
}

/// What a walker asks of the file system before it can go on.
#[derive(Debug)]
pub enum Request {
    /// Nothing: the walk is over.
    Done,
    /// The kind of the file at `path`, links followed.
    Metadata { path: String },
    /// The kind of the file at `path` itself, no link followed.
    LinkMetadata { path: String },
    /// Whether anything exists at `path`.
    Exists { path: String },
    /// The next entry of the recursive walk of `root` with the settings `config`. With
    /// `resume` the walk is the one that was asked for before, else it starts.
    Walk { root: String, config: WalkConfig, resume: bool },
}

/// A request as the contracts see it.
pub enum RequestView {
    Done,
    Metadata { path: Seq<char> },
    LinkMetadata { path: Seq<char> },
    Exists { path: Seq<char> },
    Walk { root: Seq<char>, config: WalkConfig, resume: bool },
}

impl View for Request {
    type V = RequestView;

    open spec fn view(&self) -> RequestView {
        match self {
            Request::Done => RequestView::Done,
            Request::Metadata { path } => RequestView::Metadata { path: path@ },
            Request::LinkMetadata { path } => RequestView::LinkMetadata { path: path@ },
            Request::Exists { path } => RequestView::Exists { path: path@ },
            Request::Walk { root, config, resume } => RequestView::Walk {
                root: root@,
                config: *config,
                resume: *resume,
            },
        }
    }
}

/// What a recursive walk hands out when it is asked for its next entry.
#[derive(Debug)]
pub enum WalkItem {
    /// The walk is over.
    End,
    /// The walk met an error, which its caller holds.
    Failed,
    /// An entry: its path, its kind, and whether the path is a symbolic link.
    Entry { path: String, kind: FileKind, path_is_symlink: bool },
}

/// The answer of the file system to a request.
#[derive(Debug)]
pub enum Reply {
    /// To `Metadata` and `LinkMetadata`: the kind of the file, or `None` where the probe
    /// failed.
    Metadata(Option<FileKind>),
    /// To `Exists`.
    Exists(bool),
    /// To `Walk`.
    Walk(WalkItem),
}

/// What a recursive walk hands out, as the contracts see it.
pub enum WalkItemView {
    End,
    Failed,
    Entry { path: Seq<char>, kind: FileKind, path_is_symlink: bool },
}

/// An answer as the contracts see it.
pub enum ReplyView {
    Metadata(Option<FileKind>),
    Exists(bool),
    Walk(WalkItemView),
}

impl View for WalkItem {
    type V = WalkItemView;

    open spec fn view(&self) -> WalkItemView {
        match self {
            WalkItem::End => WalkItemView::End,
            WalkItem::Failed => WalkItemView::Failed,
            WalkItem::Entry { path, kind, path_is_symlink } => WalkItemView::Entry {
                path: path@,
                kind: *kind,
                path_is_symlink: *path_is_symlink,
            },
        }
    }
}

impl View for Reply {
    type V = ReplyView;

    open spec fn view(&self) -> ReplyView {
        match self {
            Reply::Metadata(found) => ReplyView::Metadata(*found),
            Reply::Exists(yes) => ReplyView::Exists(*yes),
            Reply::Walk(item) => ReplyView::Walk(item@),
        }
    }
}

/// What a step of the walk comes to.
#[derive(Debug)]
pub enum Outcome {
    /// Nothing to hand out yet.
    Pending,
    /// An entry that matches.
    Entry(DirEntry),
    /// The error that the recursive walk reported is to be handed out.
    Failed,
}

/// The result of a step as the contracts see it.
pub enum OutcomeView {
    Pending,
    Entry(DirEntryView),
    Failed,
}

impl View for Outcome {
    type V = OutcomeView;

    open spec fn view(&self) -> OutcomeView {
        match self {
            Outcome::Pending => OutcomeView::Pending,
            Outcome::Entry(entry) => OutcomeView::Entry(entry@),
            Outcome::Failed => OutcomeView::Failed,
        }
    }
}

/// Where a walker stands: in a list of literal paths, or in a recursive walk.
#[derive(Debug)]
pub enum NodeWalkerState {
    Path { paths: Vec<String>, index: usize },
    Walk { globset: GlobSet, config: WalkConfig, base_checked: bool, started: bool },
}

/// The state of a walker as the contracts see it.
pub enum StateView {
    /// The literal paths, joined onto the base, and how many of them are done with.
    Path { paths: Seq<Seq<char>>, index: int },
    /// The globs that the entries of the walk are held against, the settings of the walk,
    /// whether the base is known to exist, and whether the walk was asked for an entry.
    Walk { globs: Seq<GlobSource>, config: WalkConfig, base_checked: bool, started: bool },
}

/// The walker of one node of a compiled plan, rooted at a path.
#[derive(Debug)]
pub struct NodeWalker {
    base: String,
    state: NodeWalkerState,
    destinations: Vec<WalkPlanNodeCompiled>,
    index_buf: Vec<usize>,
    opts: MultiGlobOptions,
    yield_self: bool,
    probe: Probe,
}

/// A walker as the contracts see it.
pub struct NodeWalkerView {
    pub base: Seq<char>,
    pub state: StateView,
    pub destinations: Seq<CompiledView>,
    pub opts: MultiGlobOptions,
    /// Whether the base itself is still to be handed out.
    pub yield_self: bool,
    pub probe: Probe,
}

impl View for NodeWalkerState {
    type V = StateView;

    open spec fn view(&self) -> StateView {
        match self {
            NodeWalkerState::Path { paths, index } => StateView::Path { paths: texts(paths@), index: *index as int },
            NodeWalkerState::Walk { globset, config, base_checked, started } => StateView::Walk {
                globs: set_globs(*globset),
                config: *config,
                base_checked: *base_checked,
                started: *started,
            },
        }
    }
}

impl View for NodeWalker {
    type V = NodeWalkerView;

    closed spec fn view(&self) -> NodeWalkerView {
        NodeWalkerView {
            base: self.base@,
            state: self.state@,
            destinations: destinations_of(self.destinations@),
            opts: self.opts,
            yield_self: self.yield_self,
            probe: self.probe,
        }
    }
}

/// What a walker hands to the walk that drives it: the entry to hand out, if the entry is
/// a result, and the walkers of the nodes that the entry leads to.
#[derive(Debug)]
pub struct NodeWalkerOutput {
    pub terminal: Option<DirEntry>,
    pub nodes: Vec<NodeWalker>,
}

/// The output of a walker as the contracts see it.
pub struct OutputView {
    pub terminal: Option<DirEntryView>,
    pub nodes: Seq<NodeWalkerView>,
}

/// A list of walkers as the contracts see it.
pub open spec fn walkers(list: Seq<NodeWalker>) -> Seq<NodeWalkerView> {
    Seq::new(list.len(), |i: int| list[i]@)
}

impl View for NodeWalkerOutput {
    type V = OutputView;

    open spec fn view(&self) -> OutputView {
        OutputView {
            terminal: match self.terminal {
                Some(entry) => Some(entry@),
                None => None,
            },
            nodes: walkers(self.nodes@),
        }
    }
}

/// What one step of a walker comes to.
#[derive(Debug)]
pub enum NodeStep {
    /// The walker has nothing more to give.
    Done,
    /// The recursive walk reported an error; the walker goes on.
    Failed,
    /// The walker looked at one entry.
    Output(NodeWalkerOutput),
}

/// The result of a step of a walker as the contracts see it.
pub enum NodeStepView {
    Done,
    Failed,
    Output(OutputView),
}

impl View for NodeStep {
    type V = NodeStepView;

    open spec fn view(&self) -> NodeStepView {
        match self {
            NodeStep::Done => NodeStepView::Done,
            NodeStep::Failed => NodeStepView::Failed,
            NodeStep::Output(output) => NodeStepView::Output(output@),
        }
    }
}

/// Each of `paths` joined onto `base`.
pub open spec fn joined_all(base: Seq<char>, paths: Seq<Seq<char>>) -> Seq<Seq<char>> {
    Seq::new(paths.len(), |i: int| path_joined(base, paths[i]))
}

/// The settings of the recursive walk below a node: those that the options ask for, with the
/// depth capped by the options where the node is recursive and at the directory's own entries
/// where it is not, and with the root followed through a link only at the root of a group.
pub open spec fn walk_settings(opts: MultiGlobOptions, recursive: bool, is_root: bool) -> WalkConfig {
    WalkConfig {
        max_depth: if recursive {
            opts.max_depth
        } else {
            1
        },
        follow_root_links: is_root,
        ..opts.configured(plain_walk())
    }
}

/// The walker of the compiled node `node` at `base`, before its first step.
///
/// A walker that starts a group hands out its own base first where the node is a result, and
/// checks that the base exists before it walks it.
pub open spec fn walker_new(
    node: CompiledView,
    base: Seq<char>,
    is_root: bool,
    opts: MultiGlobOptions,
    starting_node: bool,
) -> NodeWalkerView {
    NodeWalkerView {
        base,
        state: match node.matcher {
            MatcherView::Path { paths } => StateView::Path { paths: joined_all(base, paths), index: 0 },
            MatcherView::Walk { globs, recursive } => StateView::Walk {
                globs,
                config: walk_settings(opts, recursive, is_root),
                base_checked: !starting_node,
                started: false,
            },
        },
        destinations: node.destinations,
        opts,
        yield_self: starting_node && node.terminal,
        probe: Probe::Idle,
    }
}

/// What holds of every walker: it has a destination for each of its patterns, it looks at an
/// entry only where there is one, and a recursive walk of it goes by the order of file names.
pub open spec fn walker_wf(w: NodeWalkerView) -> bool {
    &&& match w.state {
        StateView::Path { paths, index } => paths.len() == w.destinations.len() && 0 <= index <= paths.len(),
        StateView::Walk { globs, config, .. } => globs.len() == w.destinations.len()
            && config.sort_by_file_name,
    }
    &&& forall|i: int| 0 <= i < w.destinations.len() ==> compiled_wf(#[trigger] w.destinations[i])
    &&& w.probe is SelfTarget ==> w.yield_self
    &&& w.probe is Link ==> !w.yield_self && (w.state matches StateView::Path { paths, index } && index
        < paths.len())
}

/// A walker is exhausted when it went through all of its literal paths.
pub open spec fn exhausted(w: NodeWalkerView) -> bool {
    !w.yield_self && (w.state matches StateView::Path { paths, index } && index >= paths.len())
}

/// What a walker needs to know next.
pub open spec fn request_of(w: NodeWalkerView) -> RequestView {
    if w.yield_self {
        if w.probe is SelfTarget {
            RequestView::LinkMetadata { path: w.base }
        } else {
            RequestView::Metadata { path: w.base }
        }
    } else {
        match w.state {
            StateView::Path { paths, index } => if index >= paths.len() {
                RequestView::Done
            } else if w.probe is Link {
                RequestView::Metadata { path: paths[index] }
            } else {
                RequestView::LinkMetadata { path: paths[index] }
            },
            StateView::Walk { globs, config, base_checked, started } => if !base_checked {
                RequestView::Exists { path: w.base }
            } else {
                RequestView::Walk { root: w.base, config, resume: started }
            },
        }
    }
}

/// The places that a list of numbers names.
pub open spec fn places(list: Seq<usize>) -> Seq<int> {
    Seq::new(list.len(), |i: int| list[i] as int)
}

/// Whether one of the destinations that an entry matched is a result. A place that is none
/// of a destination counts for nothing.
pub open spec fn claimed(destinations: Seq<CompiledView>, matched: Seq<int>) -> bool {
    exists|k: int|
        0 <= k < matched.len() && 0 <= (#[trigger] matched[k]) < destinations.len() && destinations[matched[k]].terminal
}

/// The walkers that the first `n` matches of an entry give rise to: one for each matched
/// destination that leads further, if the entry is a directory, in the order of the matches.
pub open spec fn spawned(
    destinations: Seq<CompiledView>,
    matched: Seq<int>,
    n: int,
    entry: DirEntryView,
    opts: MultiGlobOptions,
) -> Seq<NodeWalkerView>
    decreases n,
{
    if n <= 0 {
        Seq::empty()
    } else {
        let before = spawned(destinations, matched, n - 1, entry, opts);
        let node = destinations[matched[n - 1]];
        if 0 <= matched[n - 1] < destinations.len() && node.destinations.len() > 0 && entry.kind == FileKind::Dir {
            before.push(walker_new(node, entry.path, false, opts, false))
        } else {
            before
        }
    }
}

/// What a walker makes of an entry that matched the destinations at the places `matched`.
pub open spec fn dispatch(w: NodeWalkerView, entry: DirEntryView, matched: Seq<int>) -> OutputView {
    OutputView {
        terminal: if claimed(w.destinations, matched) {
            Some(entry)
        } else {
            None
        },
        nodes: spawned(w.destinations, matched, matched.len() as int, entry, w.opts),
    }
}

/// The output of a step that found nothing.
pub open spec fn nothing() -> NodeStepView {
    NodeStepView::Output(OutputView { terminal: None, nodes: Seq::empty() })
}

/// The entry that a recursive walk reported.
pub open spec fn walk_entry(path: Seq<char>, kind: FileKind, path_is_symlink: bool) -> DirEntryView {
    DirEntryView { path, kind, follow_link: path_is_symlink && kind != FileKind::Symlink }
}

/// One step of a walker: the walker after the answer `reply`, and what the step comes to.
///
/// An answer that is none to what the walker asked leaves the walker as it is.
pub open spec fn node_step(w: NodeWalkerView, reply: ReplyView) -> (NodeWalkerView, NodeStepView) {
    if w.yield_self {
        match reply {
            ReplyView::Metadata(found) => match w.probe {
                Probe::SelfTarget(kind) => (
                    NodeWalkerView { yield_self: false, probe: Probe::Idle, ..w },
                    match found {
                        Some(link) => NodeStepView::Output(
                            OutputView {
                                terminal: Some(
                                    DirEntryView {
                                        path: w.base,
                                        kind,
                                        follow_link: link == FileKind::Symlink,
                                    },
                                ),
                                nodes: Seq::empty(),
                            },
                        ),
                        None => nothing(),
                    },
                ),
                _ => match found {
                    Some(kind) => (NodeWalkerView { probe: Probe::SelfTarget(kind), ..w }, nothing()),
                    None => (NodeWalkerView { yield_self: false, probe: Probe::Idle, ..w }, nothing()),
                },
            },
            _ => (w, nothing()),
        }
    } else {
        match w.state {
            StateView::Path { paths, index } => if index >= paths.len() {
                (w, NodeStepView::Done)
            } else {
                match reply {
                    ReplyView::Metadata(found) => {
                        let next = NodeWalkerView {
                            state: StateView::Path { paths, index: index + 1 },
                            probe: Probe::Idle,
                            ..w
                        };
                        let path = paths[index];
                        match found {
                            None => (next, nothing()),
                            Some(kind) => if w.probe is Link {
                                (
                                    next,
                                    NodeStepView::Output(
                                        dispatch(
                                            w,
                                            DirEntryView { path, kind, follow_link: true },
                                            seq![index],
                                        ),
                                    ),
                                )
                            } else if kind == FileKind::Symlink && w.opts.follow_links {
                                (NodeWalkerView { probe: Probe::Link, ..w }, nothing())
                            } else {
                                (
                                    next,
                                    NodeStepView::Output(
                                        dispatch(
                                            w,
                                            DirEntryView { path, kind, follow_link: false },
                                            seq![index],
                                        ),
                                    ),
                                )
                            },
                        }
                    },
                    _ => (w, nothing()),
                }
            },
            StateView::Walk { globs, config, base_checked, started } => if !base_checked {
                match reply {
                    ReplyView::Exists(yes) => if yes {
                        (
                            NodeWalkerView {
                                state: StateView::Walk { globs, config, base_checked: true, started },
                                ..w
                            },
                            nothing(),
                        )
                    } else {
                        (w, NodeStepView::Done)
                    },
                    _ => (w, nothing()),
                }
            } else {
                match reply {
                    ReplyView::Walk(item) => {
                        let going = NodeWalkerView {
                            state: StateView::Walk { globs, config, base_checked, started: true },
                            ..w
                        };
                        match item {
                            WalkItemView::End => (going, NodeStepView::Done),
                            WalkItemView::Failed => (going, NodeStepView::Failed),
                            WalkItemView::Entry { path, kind, path_is_symlink } => match path_stripped(
                                path,
                                w.base,
                            ) {
                                None => (going, nothing()),
                                Some(rest) => if set_matches(globs, rest).len() == 0 {
                                    (going, nothing())
                                } else {
                                    (
                                        going,
                                        NodeStepView::Output(
                                            dispatch(
                                                w,
                                                walk_entry(path, kind, path_is_symlink),
                                                places(set_matches(globs, rest)),
                                            ),
                                        ),
                                    )
                                },
                            },
                        }
                    },
                    _ => (w, nothing()),
                }
            },
        }
    }
}

impl NodeWalker {
    /// The walker of the compiled node `node` at `base`.
    ///
    /// With `is_root` the base is the root of a group of patterns: a recursive walk then
    /// follows the base where it is a symbolic link. With `starting_node` the walker is the
    /// first of its group: it hands out its own base first where the node is a result, and
    /// it makes sure that the base exists before it walks it.
    pub fn new(
        node: WalkPlanNodeCompiled,
        base: String,
        is_root: bool,
        opts: MultiGlobOptions,
        starting_node: bool,
    ) -> (walker: Self)
        requires
            compiled_wf(node@),
        ensures
            walker@ == walker_new(node@, base@, is_root, opts, starting_node),
            walker_wf(walker@),
    {
        let ghost model = node@;
        let WalkPlanNodeCompiled { matcher, is_terminal, destinations } = node;
        proof {
            lemma_destinations_of(destinations@);
        }
        let state = match matcher {
            WalkNodeMatcher::Path { paths } => {
                let mut joined: Vec<String> = Vec::new();
                let mut i: usize = 0;
                while i < paths.len()
                    invariant
                        i <= paths.len(),
                        joined@.len() == i,
                        forall|j: int| 0 <= j < i ==> (#[trigger] joined@[j])@ == path_joined(base@, paths@[j]@),
                    decreases paths.len() - i,
                {
                    joined.push(join_path(base.as_str(), paths[i].as_str()));
                    i += 1;
                }
                assert(texts(joined@) =~= joined_all(base@, texts(paths@)));
                NodeWalkerState::Path { paths: joined, index: 0 }
            },
            WalkNodeMatcher::Walk { globset, recursive } => {
                let max_depth = if recursive {
                    opts.max_depth
                } else {
                    1
                };
                let config = opts.configure_walkdir(WalkConfig::new()).max_depth(max_depth).follow_root_links(
                    is_root,
                );
                NodeWalkerState::Walk { globset, config, base_checked: !starting_node, started: false }
            },
        };
        NodeWalker {
            base,
            state,
            destinations,
            index_buf: Vec::new(),
            opts,
            yield_self: starting_node && is_terminal,
            probe: Probe::Idle,
        }
    }

    /// What the walker needs to know next: `Done` where it went through all of its literal
    /// paths, and else the probe or the step of a recursive walk that its next step takes
    /// the answer of.
    pub fn request(&self) -> (request: Request)
        ensures
            request@ == request_of(self@),
    {
        if self.yield_self {
            match self.probe {
                Probe::SelfTarget(_) => Request::LinkMetadata { path: self.base.clone() },
                _ => Request::Metadata { path: self.base.clone() },
            }
        } else {
            match &self.state {
                NodeWalkerState::Path { paths, index } => {
                    if *index >= paths.len() {
                        Request::Done
                    } else {
                        match self.probe {
                            Probe::Link => Request::Metadata { path: paths[*index].clone() },
                            _ => Request::LinkMetadata { path: paths[*index].clone() },
                        }
                    }
                },
                NodeWalkerState::Walk { config, base_checked, started, .. } => {
                    if !*base_checked {
                        Request::Exists { path: self.base.clone() }
                    } else {
                        Request::Walk { root: self.base.clone(), config: *config, resume: *started }
                    }
                },
            }
        }
    }

    /// Whether the walker went through all of its literal paths.
    pub fn is_exhausted(&self) -> (r: bool)
        ensures
            r == exhausted(self@),
    {
        if self.yield_self {
            false
        } else {
            match &self.state {
                NodeWalkerState::Path { paths, index } => *index >= paths.len(),
                _ => false,
            }
        }
    }

    /// What the walker makes of `entry`, which matched the destinations whose places stand
    /// in the scratch list: the entry is a result where one of them is, and each of them
    /// that leads further gets a walker at the entry's path, if the entry is a directory.
    fn dispatch(&self, entry: DirEntry) -> (output: NodeWalkerOutput)
        requires
            walker_wf(self@),
        ensures
            output@ == dispatch(self@, entry@, places(self.index_buf@)),
            forall|k: int| 0 <= k < output@.nodes.len() ==> walker_wf(#[trigger] output@.nodes[k]),
    {
        let is_dir = entry.file_type().is_dir();
        let mut is_claimed = false;
        let mut nodes: Vec<NodeWalker> = Vec::new();
        let ghost matched = places(self.index_buf@);
        let ghost destinations = self@.destinations;
        proof {
            lemma_destinations_of(self.destinations@);
        }
        let mut k: usize = 0;
        while k < self.index_buf.len()
            invariant
                k <= self.index_buf.len(),
                matched == places(self.index_buf@),
                destinations == self@.destinations,
                destinations.len() == self.destinations@.len(),
                forall|i: int| 0 <= i < destinations.len() ==> #[trigger] destinations[i] == self.destinations@[i]@,
                forall|i: int| 0 <= i < destinations.len() ==> compiled_wf(#[trigger] destinations[i]),
                is_dir == (entry@.kind == FileKind::Dir),
                is_claimed == (exists|j: int|
                    0 <= j < k && 0 <= (#[trigger] matched[j]) < destinations.len() && destinations[matched[j]].terminal),
                walkers(nodes@) == spawned(destinations, matched, k as int, entry@, self.opts),
                forall|j: int| 0 <= j < nodes@.len() ==> walker_wf((#[trigger] nodes@[j])@),
            decreases self.index_buf.len() - k,
        {
            let i = self.index_buf[k];
            if i < self.destinations.len() {
                let node = &self.destinations[i];
                assert(matched[k as int] == i);
                assert(node@ == destinations[matched[k as int]]);
                if node.is_terminal {
                    is_claimed = true;
                }
                proof {
                    lemma_destinations_of(node.destinations@);
                }
                if node.destinations.len() > 0 && is_dir {
                    let ghost before = walkers(nodes@);
                    let walker = NodeWalker::new(node.clone(), entry.path().to_owned(), false, self.opts, false);
                    nodes.push(walker);
                    assert(walkers(nodes@) =~= before.push(walker@));
                }
            }
            k += 1;
        }
        let terminal = if is_claimed {
            Some(entry)
        } else {
            None
        };
        NodeWalkerOutput { terminal, nodes }
    }

    /// The output of a step that found nothing.
    fn no_output() -> (step: NodeStep)
        ensures
            step@ == nothing(),
    {
        let output = NodeWalkerOutput { terminal: None, nodes: Vec::new() };
        assert(walkers(output.nodes@) =~= Seq::empty());
        NodeStep::Output(output)
    }

    /// Takes the answer to what the walker asked, and makes one step.
    ///
    /// A walker that is to hand out its own base asks for the kind of the base, links
    /// followed, and then for the kind of the base itself: where both probes succeed, the
    /// base is the output, marked as a followed link where it is a link. A failed probe
    /// ends the matter without output.
    ///
    /// In a list of literal paths the walker asks for the kind of the next path itself,
    /// and, where that is a link and links are followed, for the kind of its target. A
    /// failed probe skips the path. Else the path is an entry that matches the destination
    /// at the path's place.
    ///
    /// In a recursive walk the walker first makes sure that its base exists, and is done
    /// where it does not. Then each entry of the walk whose path below the base matches
    /// globs of the set is an entry that matches the destinations at their places. An error
    /// of the walk is passed on, and the end of the walk is the end of the walker.
    ///
    /// An answer to another question than the one asked changes nothing.
    pub fn advance(&mut self, reply: Reply) -> (step: NodeStep)
        requires
            walker_wf(old(self)@),
        ensures
            (final(self)@, step@) == node_step(old(self)@, reply@),
            walker_wf(final(self)@),
            step@ matches NodeStepView::Output(output) ==> forall|k: int|
                0 <= k < output.nodes.len() ==> walker_wf(#[trigger] output.nodes[k]),
    {
        proof {
            lemma_destinations_of(self.destinations@);
        }
        if self.yield_self {
            match reply {
                Reply::Metadata(found) => {
                    match self.probe {
                        Probe::SelfTarget(kind) => {
                            self.yield_self = false;
                            self.probe = Probe::Idle;
                            match found {
                                Some(link) => {
                                    let entry = DirEntry::from_meta(self.base.clone(), kind, link.is_symlink());
                                    let output = NodeWalkerOutput { terminal: Some(entry), nodes: Vec::new() };
                                    assert(walkers(output.nodes@) =~= Seq::empty());
                                    NodeStep::Output(output)
                                },
                                None => Self::no_output(),
                            }
                        },
                        _ => {
                            match found {
                                Some(kind) => {
                                    self.probe = Probe::SelfTarget(kind);
                                },
                                None => {
                                    self.yield_self = false;
                                    self.probe = Probe::Idle;
                                },
                            }
                            Self::no_output()
                        },
                    }
                },
                _ => Self::no_output(),
            }
        } else {
            let (is_path, index, total) = match &self.state {
                NodeWalkerState::Path { paths, index } => (true, *index, paths.len()),
                NodeWalkerState::Walk { .. } => (false, 0, 0),
            };
            if is_path {
                if index >= total {
                    return NodeStep::Done;
                }
                match reply {
                    Reply::Metadata(found) => {
                        match found {
                            None => {
                                self.skip_path();
                                Self::no_output()
                            },
                            Some(kind) => {
                                let follows = match self.probe {
                                    Probe::Link => true,
                                    _ => false,
                                };
                                if !follows && kind.is_symlink() && self.opts.follow_links {
                                    self.probe = Probe::Link;
                                    Self::no_output()
                                } else {
                                    let path = self.current_path();
                                    let entry = DirEntry::from_meta(path, kind, follows);
                                    self.index_buf.clear();
                                    self.index_buf.push(index);
                                    assert(places(self.index_buf@) =~= seq![index as int]);
                                    let output = self.dispatch(entry);
                                    self.skip_path();
                                    NodeStep::Output(output)
                                }
                            },
                        }
                    },
                    _ => Self::no_output(),
                }
            } else {
                let base_checked = match &self.state {
                    NodeWalkerState::Walk { base_checked, .. } => *base_checked,
                    _ => false,
                };
                if !base_checked {
                    match reply {
                        Reply::Exists(yes) => {
                            if yes {
                                self.mark_walk(true, false);
                                Self::no_output()
                            } else {
                                NodeStep::Done
                            }
                        },
                        _ => Self::no_output(),
                    }
                } else {
                    match reply {
                        Reply::Walk(item) => {
                            let ghost before = self@;
                            self.mark_walk(false, true);
                            match item {
                                WalkItem::End => NodeStep::Done,
                                WalkItem::Failed => NodeStep::Failed,
                                WalkItem::Entry { path, kind, path_is_symlink } => {
                                    match strip_base(path.as_str(), self.base.as_str()) {
                                        None => Self::no_output(),
                                        Some(rest) => {
                                            self.fill_matches(rest.as_str());
                                            if self.index_buf.len() == 0 {
                                                Self::no_output()
                                            } else {
                                                let entry = DirEntry::from_walk(path, kind, path_is_symlink);
                                                let output = self.dispatch(entry);
                                                assert(output@ == dispatch(before, entry@, places(self.index_buf@)));
                                                NodeStep::Output(output)
                                            }
                                        },
                                    }
                                },
                            }
                        },
                        _ => Self::no_output(),
                    }
                }
            }
        }
    }

    /// The literal path that the walker looks at.
    fn current_path(&self) -> (path: String)
        requires
            self@.state matches StateView::Path { paths, index } && index < paths.len(),
        ensures
            self@.state matches StateView::Path { paths, index } && path@ == paths[index],
    {
        match &self.state {
            NodeWalkerState::Path { paths, index } => paths[*index].clone(),
            NodeWalkerState::Walk { .. } => String::new(),
        }
    }

    /// Goes on to the next literal path.
    fn skip_path(&mut self)
        requires
            old(self)@.state matches StateView::Path { paths, index } && index < paths.len(),
        ensures
            old(self)@.state matches StateView::Path { paths, index } && final(self)@ == (NodeWalkerView {
                state: StateView::Path { paths, index: index + 1 },
                probe: Probe::Idle,
                ..old(self)@
            }),
            final(self).index_buf@ == old(self).index_buf@,
    {
        self.probe = Probe::Idle;
        match &mut self.state {
            NodeWalkerState::Path { paths, index } => {
                if *index < paths.len() {
                    *index = *index + 1;
                }
            },
            NodeWalkerState::Walk { .. } => {},
        }
    }

    /// Notes that the base of the recursive walk exists, or that the walk was asked for an
    /// entry.
    fn mark_walk(&mut self, checked: bool, asked: bool)
        requires
            old(self)@.state is Walk,
        ensures
            old(self)@.state matches StateView::Walk { globs, config, base_checked, started } && final(self)@
                == (NodeWalkerView {
                state: StateView::Walk {
                    globs,
                    config,
                    base_checked: base_checked || checked,
                    started: started || asked,
                },
                ..old(self)@
            }),
    {
        match &mut self.state {
            NodeWalkerState::Walk { base_checked, started, .. } => {
                if checked {
                    *base_checked = true;
                }
                if asked {
                    *started = true;
                }
            },
            NodeWalkerState::Path { .. } => {},
        }
    }

    /// Fills the scratch list with the places of the globs that match `rest`.
    fn fill_matches(&mut self, rest: &str)
        requires
            old(self)@.state is Walk,
        ensures
            final(self)@ == old(self)@,
            old(self)@.state matches StateView::Walk { globs, .. } && final(self).index_buf@ == set_matches(
                globs,
                rest@,
            ),
    {
        match &self.state {
            NodeWalkerState::Walk { globset, .. } => {
                match_into(globset, rest, &mut self.index_buf);
            },
            NodeWalkerState::Path { .. } => {},
        }
    }
}

/// The walk of several groups of patterns: a stack of walkers, of which the last is the one
/// at work.
#[derive(Debug)]
pub struct MultiGlobWalker {
    opts: MultiGlobOptions,
    stack: Vec<NodeWalker>,
}

/// The walk as the contracts see it.
pub struct MultiGlobWalkerView {
    pub opts: MultiGlobOptions,
    pub stack: Seq<NodeWalkerView>,
}

impl View for MultiGlobWalker {
    type V = MultiGlobWalkerView;

    closed spec fn view(&self) -> MultiGlobWalkerView {
        MultiGlobWalkerView { opts: self.opts, stack: walkers(self.stack@) }
    }
}

/// What holds of every walk: each of its walkers is well formed.
pub open spec fn walk_wf(m: MultiGlobWalkerView) -> bool {
    forall|i: int| 0 <= i < m.stack.len() ==> walker_wf(#[trigger] m.stack[i])
}

/// The stack without the exhausted walkers at its top.
pub open spec fn settled(stack: Seq<NodeWalkerView>) -> Seq<NodeWalkerView>
    decreases stack.len(),
{
    if stack.len() > 0 && exhausted(stack.last()) {
        settled(stack.drop_last())
    } else {
        stack
    }
}

/// What the walk needs to know next: what its top walker asks, or `Done` where no walker is
/// left.
pub open spec fn walk_request(stack: Seq<NodeWalkerView>) -> RequestView {
    if stack.len() == 0 {
        RequestView::Done
    } else {
        request_of(stack.last())
    }
}

/// One step of the walk: the top walker makes a step. A walker that is done leaves the
/// stack. The walkers that its output names go on top of it, in their order, so that the
/// last of them is the next at work; the entry of the output, if any, is handed out.
pub open spec fn walk_step(m: MultiGlobWalkerView, reply: ReplyView) -> (MultiGlobWalkerView, OutcomeView) {
    if m.stack.len() == 0 {
        (m, OutcomeView::Pending)
    } else {
        let (top, step) = node_step(m.stack.last(), reply);
        let below = m.stack.drop_last();
        match step {
            NodeStepView::Done => (MultiGlobWalkerView { stack: below, ..m }, OutcomeView::Pending),
            NodeStepView::Failed => (MultiGlobWalkerView { stack: below.push(top), ..m }, OutcomeView::Failed),
            NodeStepView::Output(output) => (
                MultiGlobWalkerView { stack: below.push(top) + output.nodes, ..m },
                match output.terminal {
                    Some(entry) => OutcomeView::Entry(entry),
                    None => OutcomeView::Pending,
                },
            ),
        }
    }
}

impl MultiGlobWalker {
    /// A walk of no group.
    pub fn new(opts: MultiGlobOptions) -> (walker: Self)
        ensures
            walker@ == (MultiGlobWalkerView { opts, stack: Seq::empty() }),
            walk_wf(walker@),
    {
        let walker = MultiGlobWalker { opts, stack: Vec::new() };
        assert(walkers(walker.stack@) =~= Seq::empty());
        walker
    }

    /// Adds a group: the patterns are planned and compiled, with regard to case as the
    /// options say, and a walker for the compiled plan at `base` goes on top of the stack.
    /// It is the first walker of its group.
    ///
    /// Where the patterns do not compile, the fault is returned and the walk stays as it is.
    pub fn add(&mut self, base: String, is_root: bool, patterns: Vec<String>, skip_invalid: bool) -> (r: Result<
        (),
        GlobError,
    >)
        requires
            walk_wf(old(self)@),
        ensures
            match compile(plan_of(texts(patterns@)), skip_invalid, old(self)@.opts.case_insensitive) {
                Ok(plan) => r is Ok && final(self)@ == (MultiGlobWalkerView {
                    stack: old(self)@.stack.push(walker_new(plan, base@, is_root, old(self)@.opts, true)),
                    ..old(self)@
                }),
                Err(fault) => (r matches Err(error) && error@ == fault) && final(self)@ == old(self)@,
            },
            skip_invalid ==> r is Ok,
            walk_wf(final(self)@),
    {
        let plan = WalkPlanNode::build(patterns.as_slice());
        match WalkPlanNodeCompiled::new(&plan, skip_invalid, self.opts.case_insensitive) {
            Ok(node) => {
                let ghost before = walkers(self.stack@);
                let walker = NodeWalker::new(node, base, is_root, self.opts, true);
                self.stack.push(walker);
                assert(walkers(self.stack@) =~= before.push(walker@));
                Ok(())
            },
            Err(error) => Err(error),
        }
    }

    /// The walk with its stack turned over, so that the group that was added first is the
    /// first at work.
    pub fn rev(self) -> (walker: Self)
        requires
            walk_wf(self@),
        ensures
            walker@ == (MultiGlobWalkerView { stack: self@.stack.reverse(), ..self@ }),
            walk_wf(walker@),
    {
        let ghost all = self@.stack;
        let MultiGlobWalker { opts, stack } = self;
        let mut stack = stack;
        assert(all == walkers(stack@));
        let mut turned: Vec<NodeWalker> = Vec::new();
        while stack.len() > 0
            invariant
                walkers(stack@).len() + walkers(turned@).len() == all.len(),
                forall|i: int| 0 <= i < stack@.len() ==> (#[trigger] walkers(stack@)[i]) == all[i],
                forall|i: int| 0 <= i < turned@.len() ==> (#[trigger] walkers(turned@)[i]) == all[all.len() - 1 - i],
            decreases stack.len(),
        {
            let ghost below = walkers(stack@);
            let ghost done = walkers(turned@);
            let top = stack.pop().unwrap();
            turned.push(top);
            assert(top@ == below[below.len() - 1]);
            assert(walkers(turned@) =~= done.push(top@));
            assert(walkers(stack@) =~= below.drop_last());
            assert forall|i: int| 0 <= i < turned@.len() implies (#[trigger] walkers(turned@)[i]) == all[all.len()
                - 1 - i] by {
                if i < done.len() {
                    assert(walkers(turned@)[i] == done[i]);
                }
            }
            assert forall|i: int| 0 <= i < stack@.len() implies (#[trigger] walkers(stack@)[i]) == all[i] by {
                assert(walkers(stack@)[i] == below[i]);
            }
        }
        let walker = MultiGlobWalker { opts, stack: turned };
        assert(walker@.stack =~= all.reverse());
        assert forall|i: int| 0 <= i < walker@.stack.len() implies walker_wf(#[trigger] walker@.stack[i]) by {
            assert(walker_wf(all[all.len() - 1 - i]));
        }
        walker
    }

    /// Drops the walkers that are exhausted from the top of the stack, and says what the
    /// walk needs to know next.
    pub fn request(&mut self) -> (request: Request)
        requires
            walk_wf(old(self)@),
        ensures
            final(self)@ == (MultiGlobWalkerView { stack: settled(old(self)@.stack), ..old(self)@ }),
            request@ == walk_request(final(self)@.stack),
            walk_wf(final(self)@),
    {
        let ghost start = walkers(self.stack@);
        loop
            invariant
                settled(walkers(self.stack@)) == settled(start),
                self.opts == old(self).opts,
                walk_wf(self@),
            ensures
                walkers(self.stack@) == settled(start),
            decreases self.stack.len(),
        {
            let n = self.stack.len();
            if n == 0 {
                break ;
            }
            if !self.stack[n - 1].is_exhausted() {
                break ;
            }
            let ghost before = walkers(self.stack@);
            assert(self@.stack == before);
            self.stack.pop();
            assert(walkers(self.stack@) =~= before.drop_last());
            assert forall|i: int| 0 <= i < self@.stack.len() implies walker_wf(#[trigger] self@.stack[i]) by {
                assert(walker_wf(before[i]));
            }
        }
        let n = self.stack.len();
        if n == 0 {
            Request::Done
        } else {
            self.stack[n - 1].request()
        }
    }

    /// Takes the answer to what the walk asked, and makes one step.
    pub fn advance(&mut self, reply: Reply) -> (outcome: Outcome)
        requires
            walk_wf(old(self)@),
        ensures
            (final(self)@, outcome@) == walk_step(old(self)@, reply@),
            walk_wf(final(self)@),
    {
        if self.stack.len() == 0 {
            return Outcome::Pending;
        }
        let ghost start = walkers(self.stack@);
        let mut top = self.stack.pop().unwrap();
        let ghost below = walkers(self.stack@);
        assert(below =~= start.drop_last());
        assert(top@ == start.last());
        assert(old(self)@.stack == start);
        assert(walker_wf(old(self)@.stack[start.len() - 1]));
        assert(walker_wf(start[start.len() - 1]));
        assert forall|i: int| 0 <= i < below.len() implies walker_wf(#[trigger] below[i]) by {
            assert(walker_wf(start[i]));
        }
        match top.advance(reply) {
            NodeStep::Done => Outcome::Pending,
            NodeStep::Failed => {
                self.stack.push(top);
                assert(walkers(self.stack@) =~= below.push(top@));
                Outcome::Failed
            },
            NodeStep::Output(output) => {
                let NodeWalkerOutput { terminal, nodes } = output;
                let mut nodes = nodes;
                let ghost spawned = walkers(nodes@);
                self.stack.push(top);
                self.stack.append(&mut nodes);
                assert(walkers(self.stack@) =~= below.push(top@) + spawned);
                match terminal {
                    Some(entry) => Outcome::Entry(entry),
                    None => Outcome::Pending,
                }
            },
        }
    }
}

} // verus!
