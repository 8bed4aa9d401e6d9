//! Recursive walks: a walker whose globs match everything is proved to pass on the
//! recursive walk of its base as it is.

use crate::builder::MultiGlobOptions;
use crate::glob::set_matches;
use crate::laws::{run, World};
use crate::literal::walk_of;
use crate::path::path_stripped;
use crate::walk::{
    claimed, exhausted, places, request_of, settled, spawned, walk_entry, walk_step, MultiGlobWalkerView,
    NodeWalkerView, OutcomeView, ReplyView, RequestView, StateView, WalkItemView,
};
use vstd::prelude::*;

verus! {

/// The file system on which every base exists and on which a recursive walk hands out
/// `items`, one for each time that it is asked, and says that it is over from then on. The
/// first `before` answers of the file system went to other requests.
pub open spec fn walk_world(items: Seq<WalkItemView>, before: int) -> World {
    |asked: Seq<RequestView>|
        match asked.last() {
            RequestView::Walk { .. } => if 0 <= asked.len() - 1 - before < items.len() {
                ReplyView::Walk(items[asked.len() - 1 - before])
            } else {
                ReplyView::Walk(WalkItemView::End)
            },
            RequestView::Exists { .. } => ReplyView::Exists(true),
            _ => ReplyView::Metadata(None),
        }
}

/// What a step comes to that passes on what the recursive walk handed out.
pub open spec fn passed_on(item: WalkItemView) -> OutcomeView {
    match item {
        WalkItemView::Entry { path, kind, path_is_symlink } => OutcomeView::Entry(
            walk_entry(path, kind, path_is_symlink),
        ),
        WalkItemView::Failed => OutcomeView::Failed,
        WalkItemView::End => OutcomeView::Pending,
    }
}

/// What the steps of a run came to, in their order.
pub open spec fn outcomes_of(trace: Seq<(RequestView, OutcomeView)>) -> Seq<OutcomeView> {
    Seq::new(trace.len(), |i: int| trace[i].1)
}

/// The settings of the recursive walk that a walker asks for.
pub open spec fn is_walk_of(request: RequestView, w: NodeWalkerView) -> bool {
    request matches RequestView::Walk { root, config, .. } && root == w.base && (w.state matches StateView::Walk {
        config: own,
        ..
    } && config == own)
}

/// The globs of the walker match every path that the recursive walk hands out, and the
/// walker has one destination, which is a result and leads no further.
pub open spec fn passes_all(w: NodeWalkerView, items: Seq<WalkItemView>) -> bool {
    &&& w.destinations.len() == 1
    &&& w.destinations[0].terminal
    &&& w.destinations[0].destinations.len() == 0
    &&& w.state matches StateView::Walk { globs, .. } && forall|k: int|
        0 <= k < items.len() ==> ((#[trigger] items[k]) matches WalkItemView::Entry { path, .. } ==> (path_stripped(
            path,
            w.base,
        ) matches Some(rest) && set_matches(globs, rest) == seq![0usize]))
}

/// The steps of a recursive walker that passes everything on: from the item at place `k` on
/// the walk hands out, step by step, what the recursive walk hands out, and with the end of
/// the recursive walk the walker is done.
proof fn lemma_passing_run(
    opts: MultiGlobOptions,
    w: NodeWalkerView,
    items: Seq<WalkItemView>,
    before: int,
    asked: Seq<RequestView>,
    k: int,
    n: nat,
)
    requires
        !w.yield_self,
        w.state matches StateView::Walk { base_checked, .. } && base_checked,
        passes_all(w, items),
        0 <= k <= items.len(),
        asked.len() == before + k,
        forall|j: int| 0 <= j < items.len() ==> !((#[trigger] items[j]) is End),
        n > items.len() - k,
    ensures
        outcomes_of(run(walk_of(opts, seq![w]), walk_world(items, before), asked, n)) == Seq::new(
            (items.len() - k) as nat,
            |i: int| passed_on(items[k + i]),
        ).push(OutcomeView::Pending),
        forall|i: int|
            0 <= i < run(walk_of(opts, seq![w]), walk_world(items, before), asked, n).len() ==> is_walk_of(
                (#[trigger] run(walk_of(opts, seq![w]), walk_world(items, before), asked, n)[i]).0,
                w,
            ),
    decreases items.len() - k,
{
    reveal(run);
    let world = walk_world(items, before);
    let m = walk_of(opts, seq![w]);
    let stack = seq![w];
    assert(stack.last() == w);
    assert(!exhausted(w));
    assert(settled(stack) == stack);
    let request = request_of(w);
    assert(request is Walk);
    let history = asked.push(request);
    assert(history.last() == request);
    let reply = world(history);
    let resting = MultiGlobWalkerView { stack: settled(m.stack), ..m };
    assert(resting == m);
    let (next, outcome) = walk_step(m, reply);
    let rest = run(next, world, history, (n - 1) as nat);
    let trace = run(m, world, asked, n);
    assert(trace == seq![(request, outcome)] + rest);
    let globs = w.state->Walk_globs;
    let config = w.state->Walk_config;
    let going = NodeWalkerView {
        state: StateView::Walk { globs, config, base_checked: true, started: true },
        ..w
    };
    assert(stack.drop_last() =~= Seq::<NodeWalkerView>::empty());
    if k == items.len() {
        assert(reply == ReplyView::Walk(WalkItemView::End));
        assert(next.stack =~= Seq::<NodeWalkerView>::empty());
        assert(settled(next.stack) =~= next.stack);
        assert(rest =~= Seq::empty());
        assert(outcomes_of(trace) =~= Seq::new(0nat, |i: int| passed_on(items[k + i])).push(OutcomeView::Pending));
    } else {
        let item = items[k];
        assert(reply == ReplyView::Walk(item));
        match item {
            WalkItemView::Entry { path, kind, path_is_symlink } => {
                let found = path_stripped(path, w.base)->0;
                let matched = places(set_matches(globs, found));
                let entry = walk_entry(path, kind, path_is_symlink);
                assert(matched.len() == 1 && matched[0] == 0);
                assert(claimed(w.destinations, matched));
                reveal_with_fuel(spawned, 2);
                assert(spawned(w.destinations, matched, 1, entry, w.opts) =~= Seq::empty());
                assert(outcome == passed_on(item));
            },
            WalkItemView::Failed => {},
            WalkItemView::End => {},
        }
        assert(next.stack =~= seq![going]);
        assert(next == walk_of(opts, seq![going]));
        lemma_passing_run(opts, going, items, before, history, k + 1, (n - 1) as nat);
        let later = Seq::new((items.len() - k - 1) as nat, |i: int| passed_on(items[k + 1 + i])).push(
            OutcomeView::Pending,
        );
        assert(outcomes_of(rest) == later);
        assert(outcomes_of(trace) =~= Seq::new((items.len() - k) as nat, |i: int| passed_on(items[k + i])).push(
            OutcomeView::Pending,
        )) by {
            let want = Seq::new((items.len() - k) as nat, |i: int| passed_on(items[k + i])).push(
                OutcomeView::Pending,
            );
            assert(outcomes_of(trace).len() == want.len());
            assert forall|i: int| 0 <= i < want.len() implies outcomes_of(trace)[i] == want[i] by {
                if i > 0 {
                    assert(trace[i] == rest[i - 1]);
                    assert(outcomes_of(rest)[i - 1] == later[i - 1]);
                }
            }
        }
        assert forall|i: int| 0 <= i < trace.len() implies is_walk_of((#[trigger] trace[i]).0, w) by {
            if i > 0 {
                assert(trace[i] == rest[i - 1]);
                assert(is_walk_of(rest[i - 1].0, going));
            }
        }
    }
}

/// A recursive walk is passed on as it is. Where the globs of a recursive walker match
/// every path that the recursive walk of its base hands out, and the walker has one
/// destination, which is a result, the walk makes sure that the base exists and then asks
/// for nothing but the next entry of that one recursive walk, with the settings of the
/// walker; each step hands out the entry or the error that the recursive walk handed out,
/// in its order, and the walk ends when the recursive walk does.
pub proof fn lemma_recursive_walk_is_passed_on(
    opts: MultiGlobOptions,
    w: NodeWalkerView,
    items: Seq<WalkItemView>,
    n: nat,
)
    requires
        !w.yield_self,
        w.state matches StateView::Walk { base_checked, .. } && !base_checked,
        passes_all(w, items),
        forall|j: int| 0 <= j < items.len() ==> !((#[trigger] items[j]) is End),
        n > items.len() + 1,
    ensures
        ({
            let trace = run(walk_of(opts, seq![w]), walk_world(items, 1), Seq::empty(), n);
            &&& trace.len() == items.len() + 2
            &&& trace[0] == (RequestView::Exists { path: w.base }, OutcomeView::Pending)
            &&& forall|i: int| 0 <= i < items.len() ==> (#[trigger] trace[i + 1]).1 == passed_on(items[i])
            &&& forall|i: int| 1 <= i < trace.len() ==> is_walk_of((#[trigger] trace[i]).0, w)
            &&& trace[items.len() as int + 1].1 == OutcomeView::Pending
        }),
{
    reveal(run);
    let world = walk_world(items, 1);
    let m = walk_of(opts, seq![w]);
    let stack = seq![w];
    assert(stack.last() == w);
    assert(settled(stack) == stack);
    let request = RequestView::Exists { path: w.base };
    assert(request_of(w) == request);
    let history = Seq::<RequestView>::empty().push(request);
    assert(history.last() == request);
    let reply = world(history);
    assert(reply == ReplyView::Exists(true));
    let resting = MultiGlobWalkerView { stack: settled(m.stack), ..m };
    assert(resting == m);
    let (next, outcome) = walk_step(m, reply);
    let rest = run(next, world, history, (n - 1) as nat);
    let trace = run(m, world, Seq::empty(), n);
    assert(trace == seq![(request, outcome)] + rest);
    let globs = w.state->Walk_globs;
    let config = w.state->Walk_config;
    let started = w.state->Walk_started;
    let checked = NodeWalkerView { state: StateView::Walk { globs, config, base_checked: true, started }, ..w };
    assert(stack.drop_last() =~= Seq::<NodeWalkerView>::empty());
    assert(next.stack =~= seq![checked]);
    assert(next == walk_of(opts, seq![checked]));
    lemma_passing_run(opts, checked, items, 1, history, 0, (n - 1) as nat);
    let later = Seq::new(items.len(), |i: int| passed_on(items[0 + i])).push(OutcomeView::Pending);
    assert(outcomes_of(rest) == later);
    assert(rest.len() == later.len());
    assert forall|i: int| 0 <= i < items.len() implies (#[trigger] trace[i + 1]).1 == passed_on(items[i]) by {
        assert(trace[i + 1] == rest[i]);
        assert(outcomes_of(rest)[i] == later[i]);
    }
    assert forall|i: int| 1 <= i < trace.len() implies is_walk_of((#[trigger] trace[i]).0, w) by {
        assert(trace[i] == rest[i - 1]);
        assert(is_walk_of(rest[i - 1].0, checked));
    }
    assert(trace[items.len() as int + 1] == rest[items.len() as int]);
    assert(outcomes_of(rest)[items.len() as int] == later[items.len() as int]);
}

} // verus!
