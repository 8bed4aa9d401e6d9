//! Walks by literal paths: what such a walk hands out is proved to be exactly the paths of
//! the patterns that the probes find, in their order.

use crate::builder::{built, BuilderView, MultiGlobOptions};
use crate::cluster::clustered;
use crate::compile::{compiled_wf, CompiledView, MatcherView};
use crate::dir::{DirEntryView, FileKind};
use crate::laws::{
    all_literal, group_walker, lemma_built_literal, lemma_built_wf, lemma_groups_in_order, literal_groups,
    literal_walker, run, World,
};
use crate::walk::{
    claimed, dispatch, exhausted, joined_all, request_of, settled, spawned, walk_request, walk_step,
    walker_new, walker_wf, MultiGlobWalkerView, NodeWalkerView, OutcomeView, OutputView, Probe, ReplyView,
    RequestView, StateView,
};
use vstd::prelude::*;

verus! {

/// What the probes of single paths find on a file system that does not change: the kind of
/// the file at a path itself, and the kind of the file at a path with links followed, each
/// `None` where the probe fails.
pub struct Probes {
    pub link: spec_fn(Seq<char>) -> Option<FileKind>,
    pub target: spec_fn(Seq<char>) -> Option<FileKind>,
}

/// The file system that answers every probe of a path as `probes` say, whatever it was asked
/// before.
pub open spec fn probe_world(probes: Probes) -> World {
    |asked: Seq<RequestView>|
        match asked.last() {
            RequestView::Metadata { path } => ReplyView::Metadata((probes.target)(path)),
            RequestView::LinkMetadata { path } => ReplyView::Metadata((probes.link)(path)),
            _ => ReplyView::Exists(false),
        }
}

/// The entry for a literal path, if the path is there: the path is probed by itself, and
/// where it is a link and links are followed, its target is probed too.
pub open spec fn found(probes: Probes, path: Seq<char>, follow_links: bool) -> Option<DirEntryView> {
    match (probes.link)(path) {
        None => None,
        Some(kind) => if kind == FileKind::Symlink && follow_links {
            match (probes.target)(path) {
                None => None,
                Some(target) => Some(DirEntryView { path, kind: target, follow_link: true }),
            }
        } else {
            Some(DirEntryView { path, kind, follow_link: false })
        },
    }
}

/// What the metadata of an entry says of the kind of its file: the metadata are those of the
/// target where the entry follows a link, and those of the path itself where it does not.
pub open spec fn metadata_kind(probes: Probes, entry: DirEntryView) -> Option<FileKind> {
    if entry.follow_link {
        (probes.target)(entry.path)
    } else {
        (probes.link)(entry.path)
    }
}

/// The kind of an entry agrees with its metadata: whether links are followed or not, the
/// entry of a literal path has the kind that its metadata name.
pub proof fn lemma_kind_agrees_with_metadata(probes: Probes, path: Seq<char>, follow_links: bool)
    ensures
        found(probes, path, follow_links) matches Some(entry) ==> metadata_kind(probes, entry) == Some(entry.kind),
{
}

/// The kind of the entry of a base agrees with its metadata, on a file system on which what
/// is no link is the same with links followed.
pub proof fn lemma_base_kind_agrees_with_metadata(probes: Probes, base: Seq<char>)
    requires
        (probes.link)(base) != Some(FileKind::Symlink) ==> (probes.target)(base) == (probes.link)(base),
    ensures
        base_entry(probes, base) matches Some(entry) ==> metadata_kind(probes, entry) == Some(entry.kind),
{
}

/// The number of probes that `found` takes.
pub open spec fn found_steps(probes: Probes, path: Seq<char>, follow_links: bool) -> nat {
    if (probes.link)(path) == Some(FileKind::Symlink) && follow_links {
        2
    } else {
        1
    }
}

/// The literal segments of a node.
pub open spec fn paths_of(node: CompiledView) -> Seq<Seq<char>> {
    match node.matcher {
        MatcherView::Path { paths } => paths,
        MatcherView::Walk { .. } => Seq::empty(),
    }
}

/// Whether an entry leads further into the plan: the node that it matched has destinations,
/// and the entry is a directory.
pub open spec fn leads_on(node: CompiledView, entry: DirEntryView) -> bool {
    node.destinations.len() > 0 && entry.kind == FileKind::Dir
}

/// What a walk by literal paths is to hand out for the paths from place `i` on: for each
/// path that is there, in the order of the paths, its entry if a pattern ends at it, and
/// then, if the entry is a directory, what is to be handed out for the paths below it.
#[verifier::opaque]
pub open spec fn literal_entries(
    paths: Seq<Seq<char>>,
    destinations: Seq<CompiledView>,
    i: int,
    opts: MultiGlobOptions,
    probes: Probes,
) -> Seq<DirEntryView>
    decreases destinations, destinations.len() - i,
{
    if i < 0 || i >= destinations.len() {
        Seq::empty()
    } else {
        let node = destinations[i];
        let here = match found(probes, paths[i], opts.follow_links) {
            None => Seq::empty(),
            Some(entry) => (if node.terminal {
                seq![entry]
            } else {
                Seq::empty()
            }) + (if leads_on(node, entry) {
                literal_entries(joined_all(entry.path, paths_of(node)), node.destinations, 0, opts, probes)
            } else {
                Seq::empty()
            }),
        };
        here + literal_entries(paths, destinations, i + 1, opts, probes)
    }
}

/// The number of steps that a walk by literal paths takes for the paths from place `i` on.
#[verifier::opaque]
pub open spec fn literal_steps(
    paths: Seq<Seq<char>>,
    destinations: Seq<CompiledView>,
    i: int,
    opts: MultiGlobOptions,
    probes: Probes,
) -> nat
    decreases destinations, destinations.len() - i,
{
    if i < 0 || i >= destinations.len() {
        0
    } else {
        let node = destinations[i];
        let deeper = match found(probes, paths[i], opts.follow_links) {
            None => 0nat,
            Some(entry) => if leads_on(node, entry) {
                literal_steps(joined_all(entry.path, paths_of(node)), node.destinations, 0, opts, probes)
            } else {
                0nat
            },
        };
        found_steps(probes, paths[i], opts.follow_links) + deeper + literal_steps(
            paths,
            destinations,
            i + 1,
            opts,
            probes,
        )
    }
}

/// What is to be handed out from a place on is what is to be handed out for the path at
/// the place, for what lies below it, and from the place behind it on.
proof fn lemma_literal_unfold(
    paths: Seq<Seq<char>>,
    destinations: Seq<CompiledView>,
    i: int,
    opts: MultiGlobOptions,
    probes: Probes,
)
    ensures
        !(0 <= i < destinations.len()) ==> literal_entries(paths, destinations, i, opts, probes)
            == Seq::<DirEntryView>::empty() && literal_steps(paths, destinations, i, opts, probes) == 0,
        0 <= i < destinations.len() ==> ({
            let node = destinations[i];
            let hit = found(probes, paths[i], opts.follow_links);
            let leads = hit is Some && leads_on(node, hit->0);
            let below = joined_all(hit->0.path, paths_of(node));
            &&& literal_entries(paths, destinations, i, opts, probes) == own_entry(node, hit) + (if leads {
                literal_entries(below, node.destinations, 0, opts, probes)
            } else {
                Seq::empty()
            }) + literal_entries(paths, destinations, i + 1, opts, probes)
            &&& literal_steps(paths, destinations, i, opts, probes) == found_steps(
                probes,
                paths[i],
                opts.follow_links,
            ) + (if leads {
                literal_steps(below, node.destinations, 0, opts, probes)
            } else {
                0nat
            }) + literal_steps(paths, destinations, i + 1, opts, probes)
        }),
{
    reveal(literal_entries);
    reveal(literal_steps);
    if 0 <= i < destinations.len() {
        let node = destinations[i];
        let hit = found(probes, paths[i], opts.follow_links);
        let rest = literal_entries(paths, destinations, i + 1, opts, probes);
        match hit {
            None => {
                assert(Seq::<DirEntryView>::empty() + rest =~= own_entry(node, hit) + Seq::<DirEntryView>::empty()
                    + rest);
            },
            Some(entry) => {},
        }
    }
}

/// The entries that a run handed out, in their order.
pub open spec fn entries_of(trace: Seq<(RequestView, OutcomeView)>) -> Seq<DirEntryView>
    decreases trace.len(),
{
    if trace.len() == 0 {
        Seq::empty()
    } else {
        (match trace[0].1 {
            OutcomeView::Entry(entry) => seq![entry],
            _ => Seq::empty(),
        }) + entries_of(trace.drop_first())
    }
}

/// The entries of a run that starts with one step.
proof fn lemma_entries_of_step(step: (RequestView, OutcomeView), rest: Seq<(RequestView, OutcomeView)>)
    ensures
        entries_of(seq![step] + rest) == (match step.1 {
            OutcomeView::Entry(entry) => seq![entry],
            _ => Seq::empty(),
        }) + entries_of(rest),
{
    let trace = seq![step] + rest;
    assert(trace[0] == step);
    assert(trace.drop_first() =~= rest);
}

/// A file system that answers probes as `probes` say does not care what it was asked before.
pub proof fn lemma_run_ignores_history(
    m: MultiGlobWalkerView,
    probes: Probes,
    asked: Seq<RequestView>,
    other: Seq<RequestView>,
    n: nat,
)
    ensures
        run(m, probe_world(probes), asked, n) == run(m, probe_world(probes), other, n),
    decreases n,
{
    reveal(run);
    let resting = MultiGlobWalkerView { stack: settled(m.stack), ..m };
    let request = walk_request(resting.stack);
    if n > 0 && !(request is Done) {
        let world = probe_world(probes);
        assert(asked.push(request).last() == request);
        assert(other.push(request).last() == request);
        assert(world(asked.push(request)) == world(other.push(request)));
        let (next, outcome) = walk_step(resting, world(asked.push(request)));
        lemma_run_ignores_history(next, probes, asked.push(request), other.push(request), (n - 1) as nat);
    }
}

/// The walk with the options `opts` and the stack `stack`.
pub open spec fn walk_of(opts: MultiGlobOptions, stack: Seq<NodeWalkerView>) -> MultiGlobWalkerView {
    MultiGlobWalkerView { opts, stack }
}

/// A walk whose top walker has something to ask makes a step.
proof fn lemma_run_unfold(m: MultiGlobWalkerView, world: World, asked: Seq<RequestView>, n: nat)
    requires
        n > 0,
        m.stack.len() > 0,
        !exhausted(m.stack.last()),
        !(request_of(m.stack.last()) is Done),
    ensures
        run(m, world, asked, n) == seq![
            (request_of(m.stack.last()), walk_step(m, world(asked.push(request_of(m.stack.last())))).1),
        ] + run(
            walk_step(m, world(asked.push(request_of(m.stack.last())))).0,
            world,
            asked.push(request_of(m.stack.last())),
            (n - 1) as nat,
        ),
{
    reveal(run);
    assert(settled(m.stack) == m.stack);
    let resting = MultiGlobWalkerView { stack: settled(m.stack), ..m };
    assert(resting == m);
}

/// A walker that went through its paths is dropped before the walk goes on.
proof fn lemma_run_pop(
    opts: MultiGlobOptions,
    below: Seq<NodeWalkerView>,
    w: NodeWalkerView,
    world: World,
    asked: Seq<RequestView>,
    n: nat,
)
    requires
        exhausted(w),
    ensures
        run(walk_of(opts, below.push(w)), world, asked, n) == run(walk_of(opts, below), world, asked, n),
{
    reveal(run);
    let stack = below.push(w);
    assert(stack.last() == w);
    assert(stack.drop_last() =~= below);
    assert(settled(stack) == settled(below));
    let a = MultiGlobWalkerView { stack: settled(stack), ..walk_of(opts, stack) };
    let b = MultiGlobWalkerView { stack: settled(below), ..walk_of(opts, below) };
    assert(a == b);
}

/// The walker `w` gone on to its next literal path.
pub open spec fn next_path(w: NodeWalkerView) -> NodeWalkerView {
    match w.state {
        StateView::Path { paths, index } => NodeWalkerView {
            state: StateView::Path { paths, index: index + 1 },
            probe: Probe::Idle,
            ..w
        },
        _ => w,
    }
}

/// The entry of a path that was found, if a pattern ends at the path.
pub open spec fn own_entry(node: CompiledView, hit: Option<DirEntryView>) -> Seq<DirEntryView> {
    match hit {
        Some(entry) => if node.terminal {
            seq![entry]
        } else {
            Seq::empty()
        },
        None => Seq::empty(),
    }
}

/// The walker below a path that was found, if the path leads further.
pub open spec fn child_walker(node: CompiledView, hit: Option<DirEntryView>, opts: MultiGlobOptions) -> Seq<
    NodeWalkerView,
> {
    match hit {
        Some(entry) => if leads_on(node, entry) {
            seq![walker_new(node, entry.path, false, opts, false)]
        } else {
            Seq::empty()
        },
        None => Seq::empty(),
    }
}

/// What a walker makes of a literal path that is there.
proof fn lemma_dispatch_one(w: NodeWalkerView, entry: DirEntryView, index: int)
    requires
        0 <= index < w.destinations.len(),
    ensures
        dispatch(w, entry, seq![index]) == (OutputView {
            terminal: if w.destinations[index].terminal {
                Some(entry)
            } else {
                None
            },
            nodes: child_walker(w.destinations[index], Some(entry), w.opts),
        }),
{
    let matched = seq![index];
    assert(matched[0] == index);
    if w.destinations[index].terminal {
        assert(claimed(w.destinations, matched));
    }
    reveal_with_fuel(spawned, 2);
    assert(spawned(w.destinations, matched, 0, entry, w.opts) =~= Seq::empty());
    assert(spawned(w.destinations, matched, 1, entry, w.opts) =~= child_walker(
        w.destinations[index],
        Some(entry),
        w.opts,
    ));
}

/// The steps that a walker takes for its next literal path: one probe, or two where the
/// path is a link to be followed. After them the walker stands at the path behind, the
/// entry of the path was handed out if a pattern ends at it, and the walker below the path
/// is on top of the stack if the path leads further.
proof fn lemma_probe_path(
    opts: MultiGlobOptions,
    below: Seq<NodeWalkerView>,
    w: NodeWalkerView,
    probes: Probes,
    asked: Seq<RequestView>,
    n: nat,
)
    requires
        walker_wf(w),
        !w.yield_self,
        w.probe is Idle,
        w.state matches StateView::Path { paths, index } && 0 <= index < paths.len() && n >= found_steps(
            probes,
            paths[index],
            w.opts.follow_links,
        ),
    ensures
        ({
            let paths = w.state->Path_paths;
            let index = w.state->Path_index;
            let node = w.destinations[index];
            let hit = found(probes, paths[index], w.opts.follow_links);
            entries_of(run(walk_of(opts, below.push(w)), probe_world(probes), asked, n)) == own_entry(node, hit)
                + entries_of(
                run(
                    walk_of(opts, below.push(next_path(w)) + child_walker(node, hit, w.opts)),
                    probe_world(probes),
                    asked,
                    (n - found_steps(probes, paths[index], w.opts.follow_links)) as nat,
                ),
            )
        }),
{
    let world = probe_world(probes);
    let paths = w.state->Path_paths;
    let index = w.state->Path_index;
    let path = paths[index];
    let node = w.destinations[index];
    let hit = found(probes, path, w.opts.follow_links);
    let w1 = next_path(w);
    let after = walk_of(opts, below.push(w1) + child_walker(node, hit, w.opts));
    let m = walk_of(opts, below.push(w));
    assert(m.stack.last() == w);
    assert(m.stack.drop_last() =~= below);
    let request = RequestView::LinkMetadata { path };
    assert(request_of(w) == request);
    let history = asked.push(request);
    assert(history.last() == request);
    let reply = world(history);
    assert(reply == ReplyView::Metadata((probes.link)(path)));
    lemma_run_unfold(m, world, asked, n);
    let (next, outcome) = walk_step(m, reply);
    let rest = run(next, world, history, (n - 1) as nat);
    lemma_entries_of_step((request, outcome), rest);
    match (probes.link)(path) {
        None => {
            assert(next.stack =~= after.stack);
            lemma_run_ignores_history(after, probes, history, asked, (n - 1) as nat);
        },
        Some(kind) => {
            if kind == FileKind::Symlink && w.opts.follow_links {
                let linked = NodeWalkerView { probe: Probe::Link, ..w };
                assert(next.stack =~= below.push(linked));
                assert(next.stack.last() == linked);
                assert(next.stack.drop_last() =~= below);
                let second = RequestView::Metadata { path };
                assert(request_of(linked) == second);
                let longer = history.push(second);
                assert(longer.last() == second);
                let answer = world(longer);
                assert(answer == ReplyView::Metadata((probes.target)(path)));
                lemma_run_unfold(next, world, history, (n - 1) as nat);
                let (last, result) = walk_step(next, answer);
                let tail = run(last, world, longer, (n - 2) as nat);
                lemma_entries_of_step((second, result), tail);
                match (probes.target)(path) {
                    None => {
                        assert(last.stack =~= after.stack);
                    },
                    Some(target) => {
                        let entry = DirEntryView { path, kind: target, follow_link: true };
                        lemma_dispatch_one(linked, entry, index);
                        assert(last.stack =~= after.stack);
                    },
                }
                lemma_run_ignores_history(after, probes, longer, asked, (n - 2) as nat);
            } else {
                let entry = DirEntryView { path, kind, follow_link: false };
                lemma_dispatch_one(w, entry, index);
                assert(next.stack =~= after.stack);
                lemma_run_ignores_history(after, probes, history, asked, (n - 1) as nat);
            }
        },
    }
}

/// What a walker that goes by literal paths is to hand out from where it stands.
pub open spec fn walker_entries(w: NodeWalkerView, probes: Probes) -> Seq<DirEntryView> {
    match w.state {
        StateView::Path { paths, index } => literal_entries(paths, w.destinations, index, w.opts, probes),
        _ => Seq::empty(),
    }
}

/// The number of steps that a walker that goes by literal paths takes from where it stands.
pub open spec fn walker_steps(w: NodeWalkerView, probes: Probes) -> nat {
    match w.state {
        StateView::Path { paths, index } => literal_steps(paths, w.destinations, index, w.opts, probes),
        _ => 0,
    }
}

/// A walker that goes by literal paths hands out, from where it stands, what it is to hand
/// out, in as many steps as it is to take, and then the walk goes on with the walkers below.
pub proof fn lemma_literal_walker_run(
    opts: MultiGlobOptions,
    below: Seq<NodeWalkerView>,
    w: NodeWalkerView,
    probes: Probes,
    asked: Seq<RequestView>,
    n: nat,
)
    requires
        walker_wf(w),
        literal_walker(w),
        !w.yield_self,
        w.probe is Idle,
        n >= walker_steps(w, probes),
    ensures
        entries_of(run(walk_of(opts, below.push(w)), probe_world(probes), asked, n)) == walker_entries(w, probes)
            + entries_of(
            run(walk_of(opts, below), probe_world(probes), asked, (n - walker_steps(w, probes)) as nat),
        ),
    decreases w.destinations, w.destinations.len() - w.state->Path_index,
{
    let world = probe_world(probes);
    let paths = w.state->Path_paths;
    let index = w.state->Path_index;
    lemma_literal_unfold(paths, w.destinations, index, w.opts, probes);
    if index >= paths.len() {
        lemma_run_pop(opts, below, w, world, asked, n);
        assert(walker_entries(w, probes) =~= Seq::empty());
        assert(walker_steps(w, probes) == 0);
        assert(Seq::<DirEntryView>::empty() + entries_of(run(walk_of(opts, below), world, asked, n)) =~= entries_of(
            run(walk_of(opts, below), world, asked, n),
        ));
    } else {
        let node = w.destinations[index];
        let hit = found(probes, paths[index], w.opts.follow_links);
        let probing = found_steps(probes, paths[index], w.opts.follow_links);
        let w1 = next_path(w);
        let rest_entries = literal_entries(paths, w.destinations, index + 1, w.opts, probes);
        let rest_steps = literal_steps(paths, w.destinations, index + 1, w.opts, probes);
        assert(walker_entries(w1, probes) == rest_entries);
        assert(walker_steps(w1, probes) == rest_steps);
        assert(all_literal(node));
        lemma_probe_path(opts, below, w, probes, asked, n);
        let left = (n - probing) as nat;
        let children = child_walker(node, hit, w.opts);
        if children.len() > 0 {
            let entry = hit->0;
            let child = walker_new(node, entry.path, false, w.opts, false);
            assert(children =~= seq![child]);
            assert(below.push(w1) + children =~= below.push(w1).push(child));
            assert(literal_walker(child)) by {
                assert forall|i: int| 0 <= i < child.destinations.len() implies all_literal(
                    #[trigger] child.destinations[i],
                ) by {
                    assert(all_literal(node.destinations[i]));
                }
            }
            assert(compiled_wf(node));
            assert(walker_wf(child));
            let child_entries = literal_entries(
                joined_all(entry.path, paths_of(node)),
                node.destinations,
                0,
                w.opts,
                probes,
            );
            let child_steps = literal_steps(
                joined_all(entry.path, paths_of(node)),
                node.destinations,
                0,
                w.opts,
                probes,
            );
            assert(walker_entries(child, probes) == child_entries);
            assert(walker_steps(child, probes) == child_steps);
            assert(walker_steps(w, probes) == probing + child_steps + rest_steps);
            lemma_literal_walker_run(opts, below.push(w1), child, probes, asked, left);
            let later = (left - child_steps) as nat;
            lemma_literal_walker_run(opts, below, w1, probes, asked, later);
            let end = entries_of(run(walk_of(opts, below), world, asked, (later - rest_steps) as nat));
            assert(walker_entries(w, probes) =~= own_entry(node, hit) + child_entries + rest_entries);
            assert(own_entry(node, hit) + (child_entries + (rest_entries + end)) =~= (own_entry(node, hit)
                + child_entries + rest_entries) + end);
        } else {
            assert(below.push(w1) + children =~= below.push(w1));
            assert(walker_steps(w, probes) == probing + rest_steps);
            lemma_literal_walker_run(opts, below, w1, probes, asked, left);
            let end = entries_of(run(walk_of(opts, below), world, asked, (left - rest_steps) as nat));
            assert(walker_entries(w, probes) =~= own_entry(node, hit) + rest_entries);
            assert(own_entry(node, hit) + (rest_entries + end) =~= (own_entry(node, hit) + rest_entries) + end);
        }
    }
}

/// The entry for the base of a walk, if the base is there: its kind is that of the base
/// with links followed, and it counts as a followed link where the base itself is a link.
pub open spec fn base_entry(probes: Probes, base: Seq<char>) -> Option<DirEntryView> {
    match (probes.target)(base) {
        None => None,
        Some(kind) => match (probes.link)(base) {
            None => None,
            Some(link) => Some(DirEntryView { path: base, kind, follow_link: link == FileKind::Symlink }),
        },
    }
}

/// The walker `w` once its own base is dealt with.
pub open spec fn past_base(w: NodeWalkerView) -> NodeWalkerView {
    NodeWalkerView { yield_self: false, probe: Probe::Idle, ..w }
}

/// What a walker that did not start yet is to hand out: its own base first, if the base is
/// a result and is there, and then what it is to hand out for its literal paths.
pub open spec fn fresh_entries(w: NodeWalkerView, probes: Probes) -> Seq<DirEntryView> {
    (if w.yield_self {
        match base_entry(probes, w.base) {
            Some(entry) => seq![entry],
            None => Seq::empty(),
        }
    } else {
        Seq::empty()
    }) + walker_entries(past_base(w), probes)
}

/// The number of steps that a walker that did not start yet takes.
pub open spec fn fresh_steps(w: NodeWalkerView, probes: Probes) -> nat {
    (if w.yield_self {
        if (probes.target)(w.base) is Some {
            2nat
        } else {
            1nat
        }
    } else {
        0nat
    }) + walker_steps(past_base(w), probes)
}

/// A walker that did not start yet and goes by literal paths hands out what it is to hand
/// out, and then the walk goes on with the walkers below.
pub proof fn lemma_fresh_walker_run(
    opts: MultiGlobOptions,
    below: Seq<NodeWalkerView>,
    w: NodeWalkerView,
    probes: Probes,
    asked: Seq<RequestView>,
    n: nat,
)
    requires
        walker_wf(w),
        literal_walker(w),
        w.probe is Idle,
        n >= fresh_steps(w, probes),
    ensures
        entries_of(run(walk_of(opts, below.push(w)), probe_world(probes), asked, n)) == fresh_entries(w, probes)
            + entries_of(
            run(walk_of(opts, below), probe_world(probes), asked, (n - fresh_steps(w, probes)) as nat),
        ),
{
    let world = probe_world(probes);
    let ready = past_base(w);
    if !w.yield_self {
        assert(ready == w);
        lemma_literal_walker_run(opts, below, w, probes, asked, n);
        assert(fresh_entries(w, probes) =~= walker_entries(w, probes));
    } else {
        let m = walk_of(opts, below.push(w));
        assert(m.stack.last() == w);
        assert(m.stack.drop_last() =~= below);
        let request = RequestView::Metadata { path: w.base };
        assert(request_of(w) == request);
        let history = asked.push(request);
        assert(history.last() == request);
        let reply = world(history);
        assert(reply == ReplyView::Metadata((probes.target)(w.base)));
        lemma_run_unfold(m, world, asked, n);
        let (next, outcome) = walk_step(m, reply);
        let rest = run(next, world, history, (n - 1) as nat);
        lemma_entries_of_step((request, outcome), rest);
        let after = walk_of(opts, below.push(ready));
        let tail = entries_of(
            run(walk_of(opts, below), world, asked, (n - fresh_steps(w, probes)) as nat),
        );
        match (probes.target)(w.base) {
            None => {
                assert(next.stack =~= after.stack);
                lemma_run_ignores_history(after, probes, history, asked, (n - 1) as nat);
                lemma_literal_walker_run(opts, below, ready, probes, asked, (n - 1) as nat);
                assert(fresh_entries(w, probes) =~= walker_entries(ready, probes));
            },
            Some(kind) => {
                let known = NodeWalkerView { probe: Probe::SelfTarget(kind), ..w };
                assert(next.stack =~= below.push(known));
                assert(next.stack.last() == known);
                assert(next.stack.drop_last() =~= below);
                let second = RequestView::LinkMetadata { path: w.base };
                assert(request_of(known) == second);
                let longer = history.push(second);
                assert(longer.last() == second);
                let answer = world(longer);
                assert(answer == ReplyView::Metadata((probes.link)(w.base)));
                lemma_run_unfold(next, world, history, (n - 1) as nat);
                let (last, result) = walk_step(next, answer);
                let more = run(last, world, longer, (n - 2) as nat);
                lemma_entries_of_step((second, result), more);
                assert(last.stack =~= after.stack);
                lemma_run_ignores_history(after, probes, longer, asked, (n - 2) as nat);
                lemma_literal_walker_run(opts, below, ready, probes, asked, (n - 2) as nat);
                let own = match base_entry(probes, w.base) {
                    Some(entry) => seq![entry],
                    None => Seq::empty(),
                };
                assert(own + (walker_entries(ready, probes) + tail) =~= (own + walker_entries(ready, probes))
                    + tail);
            },
        }
    }
}

/// Every walker of the stack goes by literal paths and did not start yet.
pub open spec fn fresh_literal(stack: Seq<NodeWalkerView>) -> bool {
    forall|i: int|
        0 <= i < stack.len() ==> walker_wf(#[trigger] stack[i]) && literal_walker(stack[i]) && stack[i].probe is Idle
}

/// What a walk whose walkers did not start yet is to hand out: what its top walker is to
/// hand out, then what the walker below is to hand out, and so on down the stack.
pub open spec fn stack_entries(stack: Seq<NodeWalkerView>, probes: Probes) -> Seq<DirEntryView>
    decreases stack.len(),
{
    if stack.len() == 0 {
        Seq::empty()
    } else {
        fresh_entries(stack.last(), probes) + stack_entries(stack.drop_last(), probes)
    }
}

/// The number of steps that a walk whose walkers did not start yet takes.
pub open spec fn stack_steps(stack: Seq<NodeWalkerView>, probes: Probes) -> nat
    decreases stack.len(),
{
    if stack.len() == 0 {
        0
    } else {
        fresh_steps(stack.last(), probes) + stack_steps(stack.drop_last(), probes)
    }
}

/// A walk by literal paths hands out exactly what it is to hand out: against a file system
/// that answers probes as `probes` say, the entries of a run that is long enough are, in
/// their order, for each walker from the top of the stack down, the base of the walker if
/// it is a result and is there, and then, in the order of the literal paths, the entry of
/// each path that is there and at which a pattern ends, each directory before what is there
/// below it. However much longer the run is, nothing more is handed out.
pub proof fn lemma_literal_walk_hands_out_what_is_there(
    opts: MultiGlobOptions,
    stack: Seq<NodeWalkerView>,
    probes: Probes,
    asked: Seq<RequestView>,
    n: nat,
)
    requires
        fresh_literal(stack),
        n >= stack_steps(stack, probes),
    ensures
        entries_of(run(walk_of(opts, stack), probe_world(probes), asked, n)) == stack_entries(stack, probes),
    decreases stack.len(),
{
    let world = probe_world(probes);
    if stack.len() == 0 {
        reveal(run);
        assert(settled(stack) =~= stack);
        assert(run(walk_of(opts, stack), world, asked, n) =~= Seq::empty());
    } else {
        let w = stack.last();
        let below = stack.drop_last();
        assert(w == stack[stack.len() - 1]);
        assert(stack =~= below.push(w));
        assert forall|i: int| 0 <= i < below.len() implies walker_wf(#[trigger] below[i]) && literal_walker(
            below[i],
        ) && below[i].probe is Idle by {
            assert(below[i] == stack[i]);
        }
        lemma_fresh_walker_run(opts, below, w, probes, asked, n);
        lemma_literal_walk_hands_out_what_is_there(
            opts,
            below,
            probes,
            asked,
            (n - fresh_steps(w, probes)) as nat,
        );
    }
}

/// For patterns without wildcard characters the walk hands out exactly the paths of the
/// patterns that are there. Where no pattern of a builder's groups has a wildcard character,
/// the builder builds, and against a file system that answers probes as `probes` say, the
/// entries of a run of its walk that is long enough are what the walk is to hand out: group
/// after group, the base of the group if a pattern ends at it and it is there, and the entry
/// of each literal path that is there and at which a pattern ends, in the order of the paths.
pub proof fn lemma_literal_patterns_hand_out_what_is_there(
    b: BuilderView,
    skip_invalid: bool,
    probes: Probes,
    n: nat,
)
    requires
        literal_groups(clustered(b.patterns)),
        built(b, skip_invalid) matches Ok(walk) ==> n >= stack_steps(walk.stack, probes),
    ensures
        built(b, skip_invalid) matches Ok(walk) && entries_of(
            run(walk, probe_world(probes), Seq::empty(), n),
        ) == stack_entries(walk.stack, probes),
{
    lemma_built_literal(b, skip_invalid);
    lemma_built_wf(b, skip_invalid);
    lemma_groups_in_order(b, skip_invalid);
    let walk = built(b, skip_invalid)->Ok_0;
    let groups = clustered(b.patterns);
    assert forall|i: int| 0 <= i < walk.stack.len() implies walker_wf(#[trigger] walk.stack[i]) && literal_walker(
        walk.stack[i],
    ) && walk.stack[i].probe is Idle by {
        let g = groups.len() - 1 - i;
        assert(walk.stack[groups.len() - 1 - g] == group_walker(groups, g, b.base, b.opts, skip_invalid));
    }
    assert(walk == walk_of(walk.opts, walk.stack));
    lemma_literal_walk_hands_out_what_is_there(walk.opts, walk.stack, probes, Seq::empty(), n);
}

} // verus!
