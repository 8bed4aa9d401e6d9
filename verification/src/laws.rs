//! What holds of every walk: it stays below its base, it stays well formed, it asks for
//! sorted walks, it goes through literal segments in their order, and without wildcards it
//! reads no directory.

use crate::builder::{built, group_base, stacked, BuilderView, MultiGlobOptions};
use crate::cluster::{clustered, GroupView};
use crate::compile::{
    compile, compile_all, compiled_wf, keys_of, lemma_compile_wf, valid_globs, CompiledView, MatcherView,
};
use crate::dir::DirEntryView;
use crate::glob::{glob_fault, set_fault, set_matches, GlobFault};
use crate::path::{path_joined, path_same, path_stripped};
use crate::plan::{
    child_or_blank, has_key, lemma_plan_insert_wf, lemma_slot_exists, lemma_upsert, pattern_parts,
    plan_insert, plan_of, plan_wf, slot, Branches, PlanView, WalkNodeType,
};
use crate::util::{glob_like, has_double_star, lemma_double_star_is_glob_like, text_lt};
use crate::walk::{
    exhausted, node_step, places, request_of, settled, spawned, walk_entry, walk_request, walk_step,
    walk_wf, walker_new, walker_wf, MultiGlobWalkerView, NodeStepView, NodeWalkerView, OutcomeView,
    ReplyView, RequestView, StateView, WalkItemView,
};
use vstd::prelude::*;

verus! {

/// `path` lies directly below `via`: it is `via` with something joined onto it, or it starts
/// with `via`.
pub open spec fn below(via: Seq<char>, path: Seq<char>) -> bool {
    ||| exists|part: Seq<char>| path == #[trigger] path_joined(via, part)
    ||| path_stripped(path, via) is Some
}

/// `chain` leads from `base` to `path`: it starts with `base`, ends with `path`, and each
/// of its paths lies directly below the one before it.
pub open spec fn leads(chain: Seq<Seq<char>>, base: Seq<char>, path: Seq<char>) -> bool {
    &&& chain.len() > 0
    &&& chain[0] == base
    &&& chain[chain.len() - 1] == path
    &&& forall|i: int| 0 < i < chain.len() ==> below(chain[i - 1], #[trigger] chain[i])
}

/// `path` is reachable from `base`: by joining segments onto it, and by going to paths that
/// start with a path that is reachable.
pub open spec fn reachable(base: Seq<char>, path: Seq<char>) -> bool {
    exists|chain: Seq<Seq<char>>| #[trigger] leads(chain, base, path)
}

/// What lies directly below a reachable path is reachable.
pub proof fn lemma_reachable_below(base: Seq<char>, via: Seq<char>, path: Seq<char>)
    requires
        reachable(base, via),
        below(via, path),
    ensures
        reachable(base, path),
{
    let chain = choose|chain: Seq<Seq<char>>| #[trigger] leads(chain, base, via);
    let longer = chain.push(path);
    assert forall|i: int| 0 < i < longer.len() implies below(longer[i - 1], #[trigger] longer[i]) by {
        if i < chain.len() {
            assert(below(chain[i - 1], chain[i]));
        }
    }
    assert(leads(longer, base, path));
}

/// A path is reachable from itself.
pub proof fn lemma_reachable_self(base: Seq<char>)
    ensures
        reachable(base, base),
{
    assert(leads(seq![base], base, base));
}

/// A walker stays below `base`: its own base is reachable from `base`, and so is each of its
/// literal paths.
pub open spec fn walker_within(base: Seq<char>, w: NodeWalkerView) -> bool {
    &&& reachable(base, w.base)
    &&& w.state matches StateView::Path { paths, .. } ==> forall|i: int|
        0 <= i < paths.len() ==> reachable(base, #[trigger] paths[i])
}

/// A walk stays below `base`: each of its walkers does.
pub open spec fn walk_within(base: Seq<char>, m: MultiGlobWalkerView) -> bool {
    forall|i: int| 0 <= i < m.stack.len() ==> walker_within(base, #[trigger] m.stack[i])
}

/// A new walker at a reachable path stays below the base.
pub proof fn lemma_new_walker_within(
    base: Seq<char>,
    node: CompiledView,
    at: Seq<char>,
    is_root: bool,
    opts: MultiGlobOptions,
    starting_node: bool,
)
    requires
        reachable(base, at),
    ensures
        walker_within(base, walker_new(node, at, is_root, opts, starting_node)),
{
    let w = walker_new(node, at, is_root, opts, starting_node);
    if let StateView::Path { paths, index } = w.state {
        assert forall|i: int| 0 <= i < paths.len() implies reachable(base, #[trigger] paths[i]) by {
            let part = node.matcher->Path_paths[i];
            assert(paths[i] == path_joined(at, part));
            assert(below(at, paths[i]));
            lemma_reachable_below(base, at, paths[i]);
        }
    }
}

/// The walkers that an entry at a reachable path gives rise to stay below the base.
proof fn lemma_spawned_within(
    base: Seq<char>,
    destinations: Seq<CompiledView>,
    matched: Seq<int>,
    n: int,
    entry: DirEntryView,
    opts: MultiGlobOptions,
)
    requires
        reachable(base, entry.path),
    ensures
        forall|k: int|
            0 <= k < spawned(destinations, matched, n, entry, opts).len() ==> walker_within(
                base,
                #[trigger] spawned(destinations, matched, n, entry, opts)[k],
            ),
    decreases n,
{
    if n > 0 {
        lemma_spawned_within(base, destinations, matched, n - 1, entry, opts);
        lemma_new_walker_within(base, destinations[matched[n - 1]], entry.path, false, opts, false);
        let before = spawned(destinations, matched, n - 1, entry, opts);
        let all = spawned(destinations, matched, n, entry, opts);
        assert forall|k: int| 0 <= k < all.len() implies walker_within(base, #[trigger] all[k]) by {
            if k < before.len() {
                assert(all[k] == before[k]);
            }
        }
    }
}

/// A step of a walker that stays below `base` leaves it below `base`, and so are the walkers
/// and the entry of its output.
pub proof fn lemma_node_step_within(base: Seq<char>, w: NodeWalkerView, reply: ReplyView)
    requires
        walker_wf(w),
        walker_within(base, w),
    ensures
        walker_within(base, node_step(w, reply).0),
        node_step(w, reply).1 matches NodeStepView::Output(output) ==> {
            &&& output.terminal matches Some(entry) ==> reachable(base, entry.path)
            &&& forall|k: int| 0 <= k < output.nodes.len() ==> walker_within(base, #[trigger] output.nodes[k])
        },
{
    let (after, step) = node_step(w, reply);
    if !w.yield_self {
        match w.state {
            StateView::Path { paths, index } => {
                if index < paths.len() {
                    if let ReplyView::Metadata(Some(kind)) = reply {
                        assert(reachable(base, paths[index]));
                        let follows = w.probe is Link;
                        let entry = DirEntryView { path: paths[index], kind, follow_link: follows };
                        lemma_spawned_within(base, w.destinations, seq![index], 1, entry, w.opts);
                    }
                }
            },
            StateView::Walk { globs, config, base_checked, started } => {
                if base_checked {
                    if let ReplyView::Walk(WalkItemView::Entry { path, kind, path_is_symlink }) = reply {
                        if let Some(rest) = path_stripped(path, w.base) {
                            assert(below(w.base, path));
                            lemma_reachable_below(base, w.base, path);
                            let matched = places(set_matches(globs, rest));
                            lemma_spawned_within(
                                base,
                                w.destinations,
                                matched,
                                matched.len() as int,
                                walk_entry(path, kind, path_is_symlink),
                                w.opts,
                            );
                        }
                    }
                }
            },
        }
    }
}

/// What is left of a stack once the exhausted walkers at its top are dropped is a part of it.
pub proof fn lemma_settled_prefix(stack: Seq<NodeWalkerView>)
    ensures
        settled(stack).len() <= stack.len(),
        forall|i: int| 0 <= i < settled(stack).len() ==> #[trigger] settled(stack)[i] == stack[i],
        settled(stack).len() > 0 ==> !exhausted(settled(stack).last()),
    decreases stack.len(),
{
    if stack.len() > 0 && exhausted(stack.last()) {
        lemma_settled_prefix(stack.drop_last());
    }
}

/// Every entry that a walk hands out lies below the base of the walk: a step of a walk that
/// stays below `base` leaves it below `base`, and hands out no entry but one whose path is
/// reachable from `base`.
pub proof fn lemma_walk_step_within(base: Seq<char>, m: MultiGlobWalkerView, reply: ReplyView)
    requires
        walk_wf(m),
        walk_within(base, m),
    ensures
        walk_within(base, walk_step(m, reply).0),
        walk_step(m, reply).1 matches OutcomeView::Entry(entry) ==> reachable(base, entry.path),
{
    if m.stack.len() > 0 {
        let top = m.stack.last();
        assert(top == m.stack[m.stack.len() - 1]);
        lemma_node_step_within(base, top, reply);
        let (after, step) = node_step(top, reply);
        let next = walk_step(m, reply).0;
        let below_top = m.stack.drop_last();
        assert forall|i: int| 0 <= i < next.stack.len() implies walker_within(base, #[trigger] next.stack[i]) by {
            if i < below_top.len() {
                assert(next.stack[i] == m.stack[i]);
            } else if let NodeStepView::Output(output) = step {
                if i > below_top.len() {
                    assert(next.stack[i] == output.nodes[i - below_top.len() - 1]);
                }
            }
        }
    }
}

/// Dropping the exhausted walkers leaves a walk below its base.
pub proof fn lemma_settled_within(base: Seq<char>, m: MultiGlobWalkerView)
    requires
        walk_within(base, m),
    ensures
        walk_within(base, MultiGlobWalkerView { stack: settled(m.stack), ..m }),
{
    lemma_settled_prefix(m.stack);
    assert forall|i: int| 0 <= i < settled(m.stack).len() implies walker_within(
        base,
        #[trigger] settled(m.stack)[i],
    ) by {
        assert(settled(m.stack)[i] == m.stack[i]);
    }
}

/// The walkers of the first groups of a builder stay below the base of the builder.
proof fn lemma_stacked_within(
    groups: Seq<GroupView>,
    n: int,
    base: Seq<char>,
    opts: MultiGlobOptions,
    skip_invalid: bool,
)
    requires
        stacked(groups, n, base, opts, skip_invalid) is Ok,
    ensures
        forall|i: int|
            0 <= i < stacked(groups, n, base, opts, skip_invalid)->Ok_0.len() ==> walker_within(
                base,
                #[trigger] stacked(groups, n, base, opts, skip_invalid)->Ok_0[i],
            ),
    decreases n,
{
    if n > 0 {
        lemma_stacked_within(groups, n - 1, base, opts, skip_invalid);
        let at = group_base(base, groups[n - 1].0);
        lemma_reachable_self(base);
        if at != base {
            assert(below(base, at));
            lemma_reachable_below(base, base, at);
        }
        let plan = compile(plan_of(groups[n - 1].1), skip_invalid, opts.case_insensitive)->Ok_0;
        lemma_new_walker_within(
            base,
            plan,
            at,
            path_same(path_joined(base, groups[n - 1].0), base),
            opts,
            true,
        );
    }
}

/// The walk that a builder builds stays below the base of the builder.
pub proof fn lemma_built_within(b: BuilderView, skip_invalid: bool)
    requires
        built(b, skip_invalid) is Ok,
    ensures
        walk_within(b.base, built(b, skip_invalid)->Ok_0),
{
    let groups = clustered(b.patterns);
    lemma_stacked_within(groups, groups.len() as int, b.base, b.opts, skip_invalid);
    let stack = stacked(groups, groups.len() as int, b.base, b.opts, skip_invalid)->Ok_0;
    let m = built(b, skip_invalid)->Ok_0;
    assert forall|i: int| 0 <= i < m.stack.len() implies walker_within(b.base, #[trigger] m.stack[i]) by {
        assert(m.stack[i] == stack[stack.len() - 1 - i]);
    }
}

/// A new walker of a well-formed node is well formed.
pub proof fn lemma_new_walker_wf(
    node: CompiledView,
    at: Seq<char>,
    is_root: bool,
    opts: MultiGlobOptions,
    starting_node: bool,
)
    requires
        compiled_wf(node),
    ensures
        walker_wf(walker_new(node, at, is_root, opts, starting_node)),
{
}

/// The walkers that an entry gives rise to are well formed.
proof fn lemma_spawned_wf(
    destinations: Seq<CompiledView>,
    matched: Seq<int>,
    n: int,
    entry: DirEntryView,
    opts: MultiGlobOptions,
)
    requires
        forall|i: int| 0 <= i < destinations.len() ==> compiled_wf(#[trigger] destinations[i]),
    ensures
        forall|k: int|
            0 <= k < spawned(destinations, matched, n, entry, opts).len() ==> walker_wf(
                #[trigger] spawned(destinations, matched, n, entry, opts)[k],
            ),
    decreases n,
{
    if n > 0 {
        lemma_spawned_wf(destinations, matched, n - 1, entry, opts);
        let before = spawned(destinations, matched, n - 1, entry, opts);
        let all = spawned(destinations, matched, n, entry, opts);
        if 0 <= matched[n - 1] < destinations.len() {
            lemma_new_walker_wf(destinations[matched[n - 1]], entry.path, false, opts, false);
        }
        assert forall|k: int| 0 <= k < all.len() implies walker_wf(#[trigger] all[k]) by {
            if k < before.len() {
                assert(all[k] == before[k]);
            }
        }
    }
}

/// A step leaves a well-formed walker well formed, and the walkers of its output are well
/// formed.
pub proof fn lemma_node_step_wf(w: NodeWalkerView, reply: ReplyView)
    requires
        walker_wf(w),
    ensures
        walker_wf(node_step(w, reply).0),
        node_step(w, reply).1 matches NodeStepView::Output(output) ==> forall|k: int|
            0 <= k < output.nodes.len() ==> walker_wf(#[trigger] output.nodes[k]),
{
    if !w.yield_self {
        match w.state {
            StateView::Path { paths, index } => {
                if index < paths.len() {
                    if let ReplyView::Metadata(Some(kind)) = reply {
                        let follows = w.probe is Link;
                        let entry = DirEntryView { path: paths[index], kind, follow_link: follows };
                        lemma_spawned_wf(w.destinations, seq![index], 1, entry, w.opts);
                    }
                }
            },
            StateView::Walk { globs, config, base_checked, started } => {
                if base_checked {
                    if let ReplyView::Walk(WalkItemView::Entry { path, kind, path_is_symlink }) = reply {
                        if let Some(rest) = path_stripped(path, w.base) {
                            let matched = places(set_matches(globs, rest));
                            lemma_spawned_wf(
                                w.destinations,
                                matched,
                                matched.len() as int,
                                walk_entry(path, kind, path_is_symlink),
                                w.opts,
                            );
                        }
                    }
                }
            },
        }
    }
}

/// A step leaves a well-formed walk well formed.
pub proof fn lemma_walk_step_wf(m: MultiGlobWalkerView, reply: ReplyView)
    requires
        walk_wf(m),
    ensures
        walk_wf(walk_step(m, reply).0),
{
    if m.stack.len() > 0 {
        let top = m.stack.last();
        assert(top == m.stack[m.stack.len() - 1]);
        lemma_node_step_wf(top, reply);
        let (after, step) = node_step(top, reply);
        let next = walk_step(m, reply).0;
        let below_top = m.stack.drop_last();
        assert forall|i: int| 0 <= i < next.stack.len() implies walker_wf(#[trigger] next.stack[i]) by {
            if i < below_top.len() {
                assert(next.stack[i] == m.stack[i]);
            } else if let NodeStepView::Output(output) = step {
                if i > below_top.len() {
                    assert(next.stack[i] == output.nodes[i - below_top.len() - 1]);
                }
            }
        }
    }
}

/// Dropping the exhausted walkers leaves a well-formed walk well formed.
pub proof fn lemma_settled_wf(m: MultiGlobWalkerView)
    requires
        walk_wf(m),
    ensures
        walk_wf(MultiGlobWalkerView { stack: settled(m.stack), ..m }),
{
    lemma_settled_prefix(m.stack);
    assert forall|i: int| 0 <= i < settled(m.stack).len() implies walker_wf(#[trigger] settled(m.stack)[i]) by {
        assert(settled(m.stack)[i] == m.stack[i]);
    }
}

/// A file system that does not change by itself: what it answers depends on nothing but
/// what it was asked, from the first request to the last.
pub type World = spec_fn(Seq<RequestView>) -> ReplyView;

/// The first `n` steps of a walk against the file system `world`, which was asked `asked`
/// before: what the walk asked in each step, and what the step came to. In each step the
/// walk drops its exhausted walkers, asks what its top walker needs, and makes a step with
/// the answer, until it has nothing left to ask.
#[verifier::opaque]
pub open spec fn run(m: MultiGlobWalkerView, world: World, asked: Seq<RequestView>, n: nat) -> Seq<
    (RequestView, OutcomeView),
>
    decreases n,
{
    let resting = MultiGlobWalkerView { stack: settled(m.stack), ..m };
    let request = walk_request(resting.stack);
    if n == 0 || request is Done {
        Seq::empty()
    } else {
        let history = asked.push(request);
        let (next, outcome) = walk_step(resting, world(history));
        seq![(request, outcome)] + run(next, world, history, (n - 1) as nat)
    }
}

/// Whatever the file system answers, every entry that a walk hands out has a path that is
/// reachable from the base below which the walk stays.
pub proof fn lemma_run_within(
    base: Seq<char>,
    m: MultiGlobWalkerView,
    world: World,
    asked: Seq<RequestView>,
    n: nat,
)
    requires
        walk_wf(m),
        walk_within(base, m),
    ensures
        forall|k: int|
            0 <= k < run(m, world, asked, n).len() ==> ((#[trigger] run(m, world, asked, n)[k]).1 matches OutcomeView::Entry(
                entry,
            ) ==> reachable(base, entry.path)),
    decreases n,
{
    reveal(run);
    let resting = MultiGlobWalkerView { stack: settled(m.stack), ..m };
    let request = walk_request(resting.stack);
    if n > 0 && !(request is Done) {
        lemma_settled_wf(m);
        lemma_settled_within(base, m);
        let history = asked.push(request);
        let (next, outcome) = walk_step(resting, world(history));
        lemma_walk_step_wf(resting, world(history));
        lemma_walk_step_within(base, resting, world(history));
        lemma_run_within(base, next, world, history, (n - 1) as nat);
        let rest = run(next, world, history, (n - 1) as nat);
        assert forall|k: int| 0 <= k < run(m, world, asked, n).len() implies ((#[trigger] run(
            m,
            world,
            asked,
            n,
        )[k]).1 matches OutcomeView::Entry(entry) ==> reachable(base, entry.path)) by {
            if k > 0 {
                assert(run(m, world, asked, n)[k] == rest[k - 1]);
            }
        }
    }
}

/// The walkers of the first groups of a builder are well formed.
proof fn lemma_stacked_wf(groups: Seq<GroupView>, n: int, base: Seq<char>, opts: MultiGlobOptions, skip_invalid: bool)
    requires
        stacked(groups, n, base, opts, skip_invalid) is Ok,
    ensures
        forall|i: int|
            0 <= i < stacked(groups, n, base, opts, skip_invalid)->Ok_0.len() ==> walker_wf(
                #[trigger] stacked(groups, n, base, opts, skip_invalid)->Ok_0[i],
            ),
    decreases n,
{
    if n > 0 {
        lemma_stacked_wf(groups, n - 1, base, opts, skip_invalid);
        lemma_compile_wf(plan_of(groups[n - 1].1), skip_invalid, opts.case_insensitive);
    }
}

/// The walk that a builder builds is well formed.
pub proof fn lemma_built_wf(b: BuilderView, skip_invalid: bool)
    requires
        built(b, skip_invalid) is Ok,
    ensures
        walk_wf(built(b, skip_invalid)->Ok_0),
{
    let groups = clustered(b.patterns);
    lemma_stacked_wf(groups, groups.len() as int, b.base, b.opts, skip_invalid);
    let stack = stacked(groups, groups.len() as int, b.base, b.opts, skip_invalid)->Ok_0;
    let m = built(b, skip_invalid)->Ok_0;
    assert forall|i: int| 0 <= i < m.stack.len() implies walker_wf(#[trigger] m.stack[i]) by {
        assert(m.stack[i] == stack[stack.len() - 1 - i]);
    }
}

/// For all patterns and every base, what the walk of a builder hands out is reachable from
/// the base of the builder: by joined segments, and by what recursive walks report below a
/// path that is reachable. This holds whatever the file system answers.
pub proof fn lemma_outputs_reachable(b: BuilderView, skip_invalid: bool, world: World, n: nat)
    requires
        built(b, skip_invalid) is Ok,
    ensures
        forall|k: int|
            0 <= k < run(built(b, skip_invalid)->Ok_0, world, Seq::empty(), n).len() ==> ((#[trigger] run(
                built(b, skip_invalid)->Ok_0,
                world,
                Seq::empty(),
                n,
            )[k]).1 matches OutcomeView::Entry(entry) ==> reachable(b.base, entry.path)),
{
    lemma_built_wf(b, skip_invalid);
    lemma_built_within(b, skip_invalid);
    lemma_run_within(b.base, built(b, skip_invalid)->Ok_0, world, Seq::empty(), n);
}

/// Building twice from the same inputs gives the same walk: two walks that were built from
/// builders with the same base, patterns and options ask the same of a file system that
/// did not change, and hand out the same entries and errors in the same order.
pub proof fn lemma_same_inputs_same_run(
    first: BuilderView,
    second: BuilderView,
    walk: MultiGlobWalkerView,
    again: MultiGlobWalkerView,
    skip_invalid: bool,
    world: World,
    n: nat,
)
    requires
        first == second,
        built(first, skip_invalid) == Ok::<MultiGlobWalkerView, GlobFault>(walk),
        built(second, skip_invalid) == Ok::<MultiGlobWalkerView, GlobFault>(again),
    ensures
        walk == again,
        run(walk, world, Seq::empty(), n) == run(again, world, Seq::empty(), n),
{
}

/// A list of texts stands in the order of keys, no text twice.
pub open spec fn ascending(list: Seq<Seq<char>>) -> bool {
    forall|i: int, j: int| 0 <= i < j < list.len() ==> text_lt(#[trigger] list[i], #[trigger] list[j])
}

/// In a compiled plan the literal segments of every node stand in the order of keys.
pub open spec fn in_key_order(node: CompiledView) -> bool
    decreases node,
{
    &&& node.matcher matches MatcherView::Path { paths } ==> ascending(paths)
    &&& forall|i: int| 0 <= i < node.destinations.len() ==> in_key_order(#[trigger] node.destinations[i])
}

/// The siblings of a literal layer are looked at in lexicographic order: what a well-formed
/// plan compiles to has the literal segments of every node in the order of keys, and a walker
/// goes through them in their order.
pub proof fn lemma_compiled_in_key_order(node: PlanView, skip_invalid: bool, case_insensitive: bool)
    requires
        plan_wf(node),
        compile(node, skip_invalid, case_insensitive) is Ok,
    ensures
        in_key_order(compile(node, skip_invalid, case_insensitive)->Ok_0),
    decreases node, 1int,
{
    let compiled = compile(node, skip_invalid, case_insensitive)->Ok_0;
    if node.kind == WalkNodeType::Path {
        lemma_all_in_key_order(node.children, false, skip_invalid, case_insensitive);
        assert forall|i: int, j: int| 0 <= i < j < keys_of(node.children).len() implies text_lt(
            #[trigger] keys_of(node.children)[i],
            #[trigger] keys_of(node.children)[j],
        ) by {
            assert(text_lt(node.children[i].0, node.children[j].0));
        }
    } else if set_fault(valid_globs(node.children, case_insensitive)) is None {
        lemma_all_in_key_order(node.children, true, skip_invalid, case_insensitive);
    }
}

proof fn lemma_all_in_key_order(children: Branches, globbed: bool, skip_invalid: bool, case_insensitive: bool)
    requires
        forall|i: int| 0 <= i < children.len() ==> plan_wf((#[trigger] children[i]).1),
        compile_all(children, globbed, skip_invalid, case_insensitive) is Ok,
    ensures
        forall|i: int|
            0 <= i < compile_all(children, globbed, skip_invalid, case_insensitive)->Ok_0.len() ==> in_key_order(
                #[trigger] compile_all(children, globbed, skip_invalid, case_insensitive)->Ok_0[i],
            ),
    decreases children, 0int,
{
    if children.len() > 0 {
        let front = children.drop_last();
        assert forall|i: int| 0 <= i < front.len() implies plan_wf((#[trigger] front[i]).1) by {
            assert(front[i] == children[i]);
        }
        lemma_all_in_key_order(front, globbed, skip_invalid, case_insensitive);
        let before = compile_all(front, globbed, skip_invalid, case_insensitive)->Ok_0;
        let all = compile_all(children, globbed, skip_invalid, case_insensitive)->Ok_0;
        if !(globbed && glob_fault(children.last().0, case_insensitive) is Some) {
            assert(plan_wf(children[children.len() - 1].1));
            lemma_compiled_in_key_order(children.last().1, skip_invalid, case_insensitive);
        }
        assert forall|i: int| 0 <= i < all.len() implies in_key_order(#[trigger] all[i]) by {
            if i < before.len() {
                assert(all[i] == before[i]);
            }
        }
    }
}

/// Every recursive walk that a well-formed walk asks for is one that hands out the entries
/// of a directory in the order of their file names.
pub proof fn lemma_walks_sorted(m: MultiGlobWalkerView)
    requires
        walk_wf(m),
    ensures
        walk_request(settled(m.stack)) matches RequestView::Walk { config, .. } ==> config.sort_by_file_name,
{
    lemma_settled_prefix(m.stack);
    let stack = settled(m.stack);
    if stack.len() > 0 {
        assert(stack[stack.len() - 1] == m.stack[stack.len() - 1]);
        assert(walker_wf(m.stack[stack.len() - 1]));
    }
}

/// No segment of `parts` has a wildcard character.
pub open spec fn literal_parts(parts: Seq<Seq<char>>) -> bool {
    forall|i: int| 0 <= i < parts.len() ==> !glob_like(#[trigger] parts[i])
}

/// Every node of the plan is of kind `Path`.
pub open spec fn all_path(node: PlanView) -> bool
    decreases node,
{
    &&& node.kind == WalkNodeType::Path
    &&& forall|i: int| 0 <= i < node.children.len() ==> all_path((#[trigger] node.children[i]).1)
}

/// Every node of the compiled plan matches by literal segments.
pub open spec fn all_literal(node: CompiledView) -> bool
    decreases node,
{
    &&& node.matcher is Path
    &&& forall|i: int| 0 <= i < node.destinations.len() ==> all_literal(#[trigger] node.destinations[i])
}

/// A pattern without wildcard characters leaves a plan of literal segments a plan of literal
/// segments.
pub proof fn lemma_insert_all_path(node: PlanView, parts: Seq<Seq<char>>)
    requires
        plan_wf(node),
        all_path(node),
        literal_parts(parts),
    ensures
        all_path(plan_insert(node, parts)),
    decreases parts.len(),
{
    if parts.len() > 0 {
        let key = parts[0];
        assert(!glob_like(key));
        if has_double_star(key) {
            lemma_double_star_is_glob_like(key);
        }
        let child = child_or_blank(node.children, key);
        let tail = parts.drop_first();
        lemma_slot_exists(node.children, key);
        let p = slot(node.children, key);
        if has_key(node.children, key) {
            assert(child == node.children[p].1);
        }
        assert(all_path(child) && plan_wf(child));
        assert forall|i: int| 0 <= i < tail.len() implies !glob_like(#[trigger] tail[i]) by {
            assert(tail[i] == parts[i + 1]);
        }
        lemma_insert_all_path(child, tail);
        let grown = plan_insert(child, tail);
        lemma_upsert(node.children, key, grown);
        let after = plan_insert(node, parts);
        assert forall|i: int| 0 <= i < after.children.len() implies all_path((#[trigger] after.children[i]).1) by {
            if i != p {
                if has_key(node.children, key) {
                    assert(after.children[i] == node.children[i]);
                } else if i < p {
                    assert(after.children[i] == node.children[i]);
                } else {
                    assert(after.children[i] == node.children[i - 1]);
                }
            }
        }
    }
}

/// The plan for patterns without wildcard characters is a plan of literal segments.
pub proof fn lemma_plan_of_all_path(patterns: Seq<Seq<char>>)
    requires
        forall|i: int| 0 <= i < patterns.len() ==> literal_parts(pattern_parts(#[trigger] patterns[i])),
    ensures
        all_path(plan_of(patterns)),
        plan_wf(plan_of(patterns)),
    decreases patterns.len(),
{
    if patterns.len() > 0 {
        let front = patterns.drop_last();
        assert forall|i: int| 0 <= i < front.len() implies literal_parts(
            pattern_parts(#[trigger] front[i]),
        ) by {
            assert(front[i] == patterns[i]);
        }
        lemma_plan_of_all_path(front);
        assert(literal_parts(pattern_parts(patterns[patterns.len() - 1])));
        lemma_insert_all_path(plan_of(front), pattern_parts(patterns.last()));
        lemma_plan_insert_wf(plan_of(front), pattern_parts(patterns.last()));
    }
}

/// A plan of literal segments always compiles, and to a plan that matches by literal
/// segments only.
pub proof fn lemma_compile_literal(node: PlanView, skip_invalid: bool, case_insensitive: bool)
    requires
        all_path(node),
    ensures
        compile(node, skip_invalid, case_insensitive) is Ok,
        all_literal(compile(node, skip_invalid, case_insensitive)->Ok_0),
    decreases node, 1int,
{
    lemma_compile_all_literal(node.children, skip_invalid, case_insensitive);
}

proof fn lemma_compile_all_literal(children: Branches, skip_invalid: bool, case_insensitive: bool)
    requires
        forall|i: int| 0 <= i < children.len() ==> all_path((#[trigger] children[i]).1),
    ensures
        compile_all(children, false, skip_invalid, case_insensitive) is Ok,
        forall|i: int|
            0 <= i < compile_all(children, false, skip_invalid, case_insensitive)->Ok_0.len() ==> all_literal(
                #[trigger] compile_all(children, false, skip_invalid, case_insensitive)->Ok_0[i],
            ),
    decreases children, 0int,
{
    if children.len() > 0 {
        let front = children.drop_last();
        assert forall|i: int| 0 <= i < front.len() implies all_path((#[trigger] front[i]).1) by {
            assert(front[i] == children[i]);
        }
        lemma_compile_all_literal(front, skip_invalid, case_insensitive);
        assert(all_path(children[children.len() - 1].1));
        lemma_compile_literal(children.last().1, skip_invalid, case_insensitive);
        let before = compile_all(front, false, skip_invalid, case_insensitive)->Ok_0;
        let all = compile_all(children, false, skip_invalid, case_insensitive)->Ok_0;
        assert forall|i: int| 0 <= i < all.len() implies all_literal(#[trigger] all[i]) by {
            if i < before.len() {
                assert(all[i] == before[i]);
            }
        }
    }
}

/// A walker goes by literal paths only, and so does every walker that it can give rise to.
pub open spec fn literal_walker(w: NodeWalkerView) -> bool {
    &&& w.state is Path
    &&& forall|i: int| 0 <= i < w.destinations.len() ==> all_literal(#[trigger] w.destinations[i])
}

/// Every walker of the walk goes by literal paths only.
pub open spec fn literal_walk(m: MultiGlobWalkerView) -> bool {
    forall|i: int| 0 <= i < m.stack.len() ==> literal_walker(#[trigger] m.stack[i])
}

/// Whether a request is for a probe of one path: no directory is read for it.
pub open spec fn is_probe(request: RequestView) -> bool {
    request is Metadata || request is LinkMetadata
}

proof fn lemma_spawned_literal(
    destinations: Seq<CompiledView>,
    matched: Seq<int>,
    n: int,
    entry: DirEntryView,
    opts: MultiGlobOptions,
)
    requires
        forall|i: int| 0 <= i < destinations.len() ==> all_literal(#[trigger] destinations[i]),
    ensures
        forall|k: int|
            0 <= k < spawned(destinations, matched, n, entry, opts).len() ==> literal_walker(
                #[trigger] spawned(destinations, matched, n, entry, opts)[k],
            ),
    decreases n,
{
    if n > 0 {
        lemma_spawned_literal(destinations, matched, n - 1, entry, opts);
        let before = spawned(destinations, matched, n - 1, entry, opts);
        let all = spawned(destinations, matched, n, entry, opts);
        if 0 <= matched[n - 1] < destinations.len() {
            let node = destinations[matched[n - 1]];
            assert(all_literal(node));
            let w = walker_new(node, entry.path, false, opts, false);
            assert forall|i: int| 0 <= i < w.destinations.len() implies all_literal(#[trigger] w.destinations[i]) by {
                assert(all_literal(node.destinations[i]));
            }
        }
        assert forall|k: int| 0 <= k < all.len() implies literal_walker(#[trigger] all[k]) by {
            if k < before.len() {
                assert(all[k] == before[k]);
            }
        }
    }
}

/// A walker that goes by literal paths asks for probes of single paths only. It hands out an
/// entry only for the path that it asked about, and only where the probe found the path; the
/// walkers that the entry gives rise to go by literal paths again.
pub proof fn lemma_literal_step(w: NodeWalkerView, reply: ReplyView)
    requires
        walker_wf(w),
        literal_walker(w),
    ensures
        request_of(w) is Done || is_probe(request_of(w)),
        literal_walker(node_step(w, reply).0),
        !(node_step(w, reply).1 is Failed),
        node_step(w, reply).1 matches NodeStepView::Output(output) ==> {
            &&& forall|k: int| 0 <= k < output.nodes.len() ==> literal_walker(#[trigger] output.nodes[k])
            &&& output.terminal matches Some(entry) ==> {
                &&& reply matches ReplyView::Metadata(Some(_))
                &&& request_of(w) == (RequestView::Metadata { path: entry.path }) || request_of(w) == (
                RequestView::LinkMetadata { path: entry.path })
            }
        },
{
    if !w.yield_self {
        if let StateView::Path { paths, index } = w.state {
            if index < paths.len() {
                if let ReplyView::Metadata(Some(kind)) = reply {
                    let follows = w.probe is Link;
                    let entry = DirEntryView { path: paths[index], kind, follow_link: follows };
                    lemma_spawned_literal(w.destinations, seq![index], 1, entry, w.opts);
                }
            }
        }
    }
}

/// A step of a walk that goes by literal paths: the walk asked for a probe of one path, it
/// goes by literal paths after the step, no error is handed out, and an entry is handed out
/// only for the path that was asked about and found.
pub proof fn lemma_literal_walk_step(m: MultiGlobWalkerView, reply: ReplyView)
    requires
        walk_wf(m),
        literal_walk(m),
    ensures
        walk_request(m.stack) is Done || is_probe(walk_request(m.stack)),
        literal_walk(walk_step(m, reply).0),
        !(walk_step(m, reply).1 is Failed),
        walk_step(m, reply).1 matches OutcomeView::Entry(entry) ==> {
            &&& reply matches ReplyView::Metadata(Some(_))
            &&& walk_request(m.stack) == (RequestView::Metadata { path: entry.path }) || walk_request(m.stack)
                == (RequestView::LinkMetadata { path: entry.path })
        },
{
    if m.stack.len() > 0 {
        let top = m.stack.last();
        assert(top == m.stack[m.stack.len() - 1]);
        lemma_literal_step(top, reply);
        let (after, step) = node_step(top, reply);
        let next = walk_step(m, reply).0;
        let below_top = m.stack.drop_last();
        assert forall|i: int| 0 <= i < next.stack.len() implies literal_walker(#[trigger] next.stack[i]) by {
            if i < below_top.len() {
                assert(next.stack[i] == m.stack[i]);
            } else if let NodeStepView::Output(output) = step {
                if i > below_top.len() {
                    assert(next.stack[i] == output.nodes[i - below_top.len() - 1]);
                }
            }
        }
    }
}

/// For patterns without wildcard characters no directory is read: a walk that goes by
/// literal paths asks, whatever the file system answers, for nothing but probes of single
/// paths, and what it hands out are entries whose paths it asked about and found.
pub proof fn lemma_literal_run(m: MultiGlobWalkerView, world: World, asked: Seq<RequestView>, n: nat)
    requires
        walk_wf(m),
        literal_walk(m),
    ensures
        forall|k: int|
            0 <= k < run(m, world, asked, n).len() ==> {
                let (request, outcome) = #[trigger] run(m, world, asked, n)[k];
                &&& is_probe(request)
                &&& !(outcome is Failed)
                &&& outcome matches OutcomeView::Entry(entry) ==> request == (RequestView::Metadata {
                    path: entry.path,
                }) || request == (RequestView::LinkMetadata { path: entry.path })
            },
    decreases n,
{
    reveal(run);
    let resting = MultiGlobWalkerView { stack: settled(m.stack), ..m };
    let request = walk_request(resting.stack);
    if n > 0 && !(request is Done) {
        lemma_settled_wf(m);
        lemma_settled_prefix(m.stack);
        assert forall|i: int| 0 <= i < resting.stack.len() implies literal_walker(#[trigger] resting.stack[i]) by {
            assert(resting.stack[i] == m.stack[i]);
        }
        let history = asked.push(request);
        let (next, outcome) = walk_step(resting, world(history));
        lemma_walk_step_wf(resting, world(history));
        lemma_literal_walk_step(resting, world(history));
        lemma_literal_run(next, world, history, (n - 1) as nat);
        let rest = run(next, world, history, (n - 1) as nat);
        assert forall|k: int| 0 <= k < run(m, world, asked, n).len() implies {
            let (request, outcome) = #[trigger] run(m, world, asked, n)[k];
            &&& is_probe(request)
            &&& !(outcome is Failed)
            &&& outcome matches OutcomeView::Entry(entry) ==> request == (RequestView::Metadata {
                path: entry.path,
            }) || request == (RequestView::LinkMetadata { path: entry.path })
        } by {
            if k > 0 {
                assert(run(m, world, asked, n)[k] == rest[k - 1]);
            }
        }
    }
}

/// A group of patterns without wildcard characters gets a walker that goes by literal paths.
pub proof fn lemma_literal_group(
    patterns: Seq<Seq<char>>,
    base: Seq<char>,
    is_root: bool,
    opts: MultiGlobOptions,
    skip_invalid: bool,
)
    requires
        forall|i: int| 0 <= i < patterns.len() ==> literal_parts(pattern_parts(#[trigger] patterns[i])),
    ensures
        compile(plan_of(patterns), skip_invalid, opts.case_insensitive) is Ok,
        literal_walker(
            walker_new(
                compile(plan_of(patterns), skip_invalid, opts.case_insensitive)->Ok_0,
                base,
                is_root,
                opts,
                true,
            ),
        ),
{
    lemma_plan_of_all_path(patterns);
    lemma_compile_literal(plan_of(patterns), skip_invalid, opts.case_insensitive);
    let plan = compile(plan_of(patterns), skip_invalid, opts.case_insensitive)->Ok_0;
    let w = walker_new(plan, base, is_root, opts, true);
    assert forall|i: int| 0 <= i < w.destinations.len() implies all_literal(#[trigger] w.destinations[i]) by {
        assert(all_literal(plan.destinations[i]));
    }
}

/// Every pattern of every group is without wildcard characters.
pub open spec fn literal_groups(groups: Seq<GroupView>) -> bool {
    forall|g: int, i: int|
        0 <= g < groups.len() && 0 <= i < groups[g].1.len() ==> literal_parts(
            pattern_parts(#[trigger] groups[g].1[i]),
        )
}

proof fn lemma_stacked_literal(groups: Seq<GroupView>, n: int, base: Seq<char>, opts: MultiGlobOptions, skip_invalid: bool)
    requires
        0 <= n <= groups.len(),
        literal_groups(groups),
    ensures
        stacked(groups, n, base, opts, skip_invalid) is Ok,
        forall|i: int|
            0 <= i < stacked(groups, n, base, opts, skip_invalid)->Ok_0.len() ==> literal_walker(
                #[trigger] stacked(groups, n, base, opts, skip_invalid)->Ok_0[i],
            ),
    decreases n,
{
    if n > 0 {
        lemma_stacked_literal(groups, n - 1, base, opts, skip_invalid);
        let patterns = groups[n - 1].1;
        assert forall|i: int| 0 <= i < patterns.len() implies literal_parts(
            pattern_parts(#[trigger] patterns[i]),
        ) by {
            assert(literal_parts(pattern_parts(groups[n - 1].1[i])));
        }
        lemma_literal_group(
            patterns,
            group_base(base, groups[n - 1].0),
            path_same(path_joined(base, groups[n - 1].0), base),
            opts,
            skip_invalid,
        );
        let before = stacked(groups, n - 1, base, opts, skip_invalid)->Ok_0;
        let all = stacked(groups, n, base, opts, skip_invalid)->Ok_0;
        assert forall|i: int| 0 <= i < all.len() implies literal_walker(#[trigger] all[i]) by {
            if i < before.len() {
                assert(all[i] == before[i]);
            }
        }
    }
}

/// Where no pattern of a builder's groups has a wildcard character, the builder always
/// builds, and its walk reads no directory: whatever the file system answers, the walk asks
/// for nothing but probes of single paths, it hands out no error, and each entry that it
/// hands out is one whose path it asked about and found.
pub proof fn lemma_literal_patterns_read_no_directory(b: BuilderView, skip_invalid: bool, world: World, n: nat)
    requires
        literal_groups(clustered(b.patterns)),
    ensures
        built(b, skip_invalid) is Ok,
        forall|k: int|
            0 <= k < run(built(b, skip_invalid)->Ok_0, world, Seq::empty(), n).len() ==> {
                let (request, outcome) = #[trigger] run(built(b, skip_invalid)->Ok_0, world, Seq::empty(), n)[k];
                &&& is_probe(request)
                &&& !(outcome is Failed)
                &&& outcome matches OutcomeView::Entry(entry) ==> request == (RequestView::Metadata {
                    path: entry.path,
                }) || request == (RequestView::LinkMetadata { path: entry.path })
            },
{
    lemma_built_literal(b, skip_invalid);
    lemma_built_wf(b, skip_invalid);
    lemma_literal_run(built(b, skip_invalid)->Ok_0, world, Seq::empty(), n);
}

/// Where no pattern of a builder's groups has a wildcard character, the builder always
/// builds, and every walker of its walk goes by literal paths.
pub proof fn lemma_built_literal(b: BuilderView, skip_invalid: bool)
    requires
        literal_groups(clustered(b.patterns)),
    ensures
        built(b, skip_invalid) is Ok,
        literal_walk(built(b, skip_invalid)->Ok_0),
{
    let groups = clustered(b.patterns);
    lemma_stacked_literal(groups, groups.len() as int, b.base, b.opts, skip_invalid);
    let stack = stacked(groups, groups.len() as int, b.base, b.opts, skip_invalid)->Ok_0;
    let m = built(b, skip_invalid)->Ok_0;
    assert forall|i: int| 0 <= i < m.stack.len() implies literal_walker(#[trigger] m.stack[i]) by {
        assert(m.stack[i] == stack[stack.len() - 1 - i]);
    }
}

/// The walker that a builder gives to the group at place `i`.
pub open spec fn group_walker(groups: Seq<GroupView>, i: int, base: Seq<char>, opts: MultiGlobOptions, skip_invalid: bool) -> NodeWalkerView {
    walker_new(
        compile(plan_of(groups[i].1), skip_invalid, opts.case_insensitive)->Ok_0,
        group_base(base, groups[i].0),
        path_same(path_joined(base, groups[i].0), base),
        opts,
        true,
    )
}

proof fn lemma_stacked_at(groups: Seq<GroupView>, n: int, base: Seq<char>, opts: MultiGlobOptions, skip_invalid: bool)
    requires
        0 <= n,
        stacked(groups, n, base, opts, skip_invalid) is Ok,
    ensures
        stacked(groups, n, base, opts, skip_invalid)->Ok_0.len() == n,
        forall|i: int|
            0 <= i < n ==> #[trigger] stacked(groups, n, base, opts, skip_invalid)->Ok_0[i] == group_walker(
                groups,
                i,
                base,
                opts,
                skip_invalid,
            ),
    decreases n,
{
    if n > 0 {
        lemma_stacked_at(groups, n - 1, base, opts, skip_invalid);
        let before = stacked(groups, n - 1, base, opts, skip_invalid)->Ok_0;
        let all = stacked(groups, n, base, opts, skip_invalid)->Ok_0;
        assert forall|i: int| 0 <= i < n implies #[trigger] all[i] == group_walker(
            groups,
            i,
            base,
            opts,
            skip_invalid,
        ) by {
            if i < n - 1 {
                assert(all[i] == before[i]);
            }
        }
    }
}

/// The groups are walked in their order: the walk that a builder builds has one walker for
/// each group of its patterns, and a group that comes earlier has its walker higher up in
/// the stack, so that the walker of the first group is the first at work.
pub proof fn lemma_groups_in_order(b: BuilderView, skip_invalid: bool)
    requires
        built(b, skip_invalid) is Ok,
    ensures
        built(b, skip_invalid)->Ok_0.stack.len() == clustered(b.patterns).len(),
        forall|i: int|
            0 <= i < clustered(b.patterns).len() ==> #[trigger] built(b, skip_invalid)->Ok_0.stack[clustered(
                b.patterns,
            ).len() - 1 - i] == group_walker(clustered(b.patterns), i, b.base, b.opts, skip_invalid),
{
    let groups = clustered(b.patterns);
    lemma_stacked_at(groups, groups.len() as int, b.base, b.opts, skip_invalid);
    let stack = stacked(groups, groups.len() as int, b.base, b.opts, skip_invalid)->Ok_0;
    let m = built(b, skip_invalid)->Ok_0;
    assert forall|i: int| 0 <= i < groups.len() implies #[trigger] m.stack[groups.len() - 1 - i] == group_walker(
        groups,
        i,
        b.base,
        b.opts,
        skip_invalid,
    ) by {
        assert(m.stack[groups.len() - 1 - i] == stack[i]);
    }
}

} // verus!
