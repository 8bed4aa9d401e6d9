//! Compiled plans: the plan of a group with its keys turned into matchers.

use crate::glob::{
    add_glob, build_set, clone_set, compile_glob, empty_set, glob_fault, new_set_builder, set_fault,
    set_globs, GlobError, GlobFault, GlobSource,
};
use crate::plan::{Branches, PlanView, WalkNodeType, WalkPlanNode};
use globset::GlobSet;
use vstd::prelude::*;

verus! {

/// How a compiled node tells which of its destinations an entry leads to.
#[derive(Debug)]
pub enum WalkNodeMatcher {
    /// By name: the literal segments, one for each destination.
    Path { paths: Vec<String> },
    /// By pattern: a set of globs, one for each destination. With `recursive` the patterns
    /// are held against every path of the tree below, else against the entries of the
    /// directory only.
    Walk { globset: GlobSet, recursive: bool },
}

/// A node of a compiled plan: a matcher, and the node that each of its patterns leads to.
#[derive(Debug)]
pub struct WalkPlanNodeCompiled {
    pub(crate) matcher: WalkNodeMatcher,
    pub(crate) is_terminal: bool,
    pub(crate) destinations: Vec<WalkPlanNodeCompiled>,
}

/// A matcher as the contracts see it.
pub enum MatcherView {
    Path { paths: Seq<Seq<char>> },
    Walk { globs: Seq<GlobSource>, recursive: bool },
}

/// A compiled plan as a mathematical tree.
pub struct CompiledView {
    pub matcher: MatcherView,
    pub terminal: bool,
    pub destinations: Seq<CompiledView>,
}

impl MatcherView {
    /// The number of patterns that the matcher holds.
    pub open spec fn len(self) -> nat {
        match self {
            MatcherView::Path { paths } => paths.len(),
            MatcherView::Walk { globs, .. } => globs.len(),
        }
    }
}

impl View for WalkNodeMatcher {
    type V = MatcherView;

    open(crate) spec fn view(&self) -> MatcherView {
        match self {
            WalkNodeMatcher::Path { paths } => MatcherView::Path { paths: crate::path::texts(paths@) },
            WalkNodeMatcher::Walk { globset, recursive } => MatcherView::Walk {
                globs: set_globs(*globset),
                recursive: *recursive,
            },
        }
    }
}

/// The destinations of a node as the model sees them.
pub closed spec fn destinations_of(nodes: Seq<WalkPlanNodeCompiled>) -> Seq<CompiledView>
    decreases nodes,
{
    if nodes.len() == 0 {
        Seq::empty()
    } else {
        destinations_of(nodes.drop_last()).push(nodes.last().view())
    }
}

impl View for WalkPlanNodeCompiled {
    type V = CompiledView;

    open(crate) spec fn view(&self) -> CompiledView
        decreases self,
    {
        CompiledView {
            matcher: self.matcher@,
            terminal: self.is_terminal,
            destinations: destinations_of(self.destinations@),
        }
    }
}

pub(crate) proof fn lemma_destinations_of(nodes: Seq<WalkPlanNodeCompiled>)
    ensures
        destinations_of(nodes).len() == nodes.len(),
        forall|i: int| 0 <= i < nodes.len() ==> #[trigger] destinations_of(nodes)[i] == nodes[i]@,
    decreases nodes.len(),
{
    if nodes.len() > 0 {
        let front = nodes.drop_last();
        lemma_destinations_of(front);
        assert(destinations_of(nodes) == destinations_of(front).push(nodes.last()@));
        assert forall|i: int| 0 <= i < nodes.len() implies #[trigger] destinations_of(nodes)[i]
            == nodes[i]@ by {
            if i < front.len() {
                assert(front[i] == nodes[i]);
            }
        }
    }
}

/// The keys of a list of children.
pub open spec fn keys_of(children: Branches) -> Seq<Seq<char>> {
    Seq::new(children.len(), |i: int| children[i].0)
}

/// What the glob compiler finds wrong with the first key that does not compile, or `None`
/// where every key compiles.
pub open spec fn first_key_fault(children: Branches, case_insensitive: bool) -> Option<GlobFault>
    decreases children.len(),
{
    if children.len() == 0 {
        None
    } else if first_key_fault(children.drop_last(), case_insensitive) is Some {
        first_key_fault(children.drop_last(), case_insensitive)
    } else {
        glob_fault(children.last().0, case_insensitive)
    }
}

/// The globs of the keys that compile, in the order of the keys.
pub open spec fn valid_globs(children: Branches, case_insensitive: bool) -> Seq<GlobSource>
    decreases children.len(),
{
    if children.len() == 0 {
        Seq::empty()
    } else if glob_fault(children.last().0, case_insensitive) is None {
        valid_globs(children.drop_last(), case_insensitive).push((children.last().0, case_insensitive))
    } else {
        valid_globs(children.drop_last(), case_insensitive)
    }
}

/// What a plan compiles to.
///
/// A node of kind `Path` keeps its keys as literal segments. Any other node has its keys
/// compiled as globs into one set: with `skip_invalid` a key that does not compile is left
/// out with its subtree, and a set that cannot be built becomes the empty set without
/// destinations; without it the first such fault is the result. The destinations are the
/// compiled children, and the first fault among them is the result.
pub open spec fn compile(node: PlanView, skip_invalid: bool, case_insensitive: bool) -> Result<
    CompiledView,
    GlobFault,
>
    decreases node, 1int,
{
    if node.kind == WalkNodeType::Path {
        match compile_all(node.children, false, skip_invalid, case_insensitive) {
            Ok(destinations) => Ok(
                CompiledView {
                    matcher: MatcherView::Path { paths: keys_of(node.children) },
                    terminal: node.terminal,
                    destinations,
                },
            ),
            Err(fault) => Err(fault),
        }
    } else if !skip_invalid && first_key_fault(node.children, case_insensitive) is Some {
        Err(first_key_fault(node.children, case_insensitive)->0)
    } else {
        let globs = valid_globs(node.children, case_insensitive);
        let recursive = node.kind == WalkNodeType::Walk;
        match set_fault(globs) {
            Some(fault) => if skip_invalid {
                Ok(
                    CompiledView {
                        matcher: MatcherView::Walk { globs: Seq::empty(), recursive },
                        terminal: node.terminal,
                        destinations: Seq::empty(),
                    },
                )
            } else {
                Err(fault)
            },
            None => match compile_all(node.children, true, skip_invalid, case_insensitive) {
                Ok(destinations) => Ok(
                    CompiledView {
                        matcher: MatcherView::Walk { globs, recursive },
                        terminal: node.terminal,
                        destinations,
                    },
                ),
                Err(fault) => Err(fault),
            },
        }
    }
}

/// What the children of a node compile to, one after the other. Where the keys are globs, a
/// child whose key does not compile is left out.
pub open spec fn compile_all(
    children: Branches,
    globbed: bool,
    skip_invalid: bool,
    case_insensitive: bool,
) -> Result<Seq<CompiledView>, GlobFault>
    decreases children, 0int,
{
    if children.len() == 0 {
        Ok(Seq::empty())
    } else {
        match compile_all(children.drop_last(), globbed, skip_invalid, case_insensitive) {
            Err(fault) => Err(fault),
            Ok(front) => if globbed && glob_fault(children.last().0, case_insensitive) is Some {
                Ok(front)
            } else {
                match compile(children.last().1, skip_invalid, case_insensitive) {
                    Err(fault) => Err(fault),
                    Ok(last) => Ok(front.push(last)),
                }
            },
        }
    }
}

/// In a compiled plan every node has as many destinations as its matcher has patterns.
pub open spec fn compiled_wf(node: CompiledView) -> bool
    decreases node,
{
    &&& node.matcher.len() == node.destinations.len()
    &&& forall|i: int| 0 <= i < node.destinations.len() ==> compiled_wf(#[trigger] node.destinations[i])
}

/// A fault found among the first keys is the fault found among all of them.
proof fn lemma_first_fault_stays(children: Branches, case_insensitive: bool, i: int, k: int)
    requires
        0 <= i <= k <= children.len(),
        first_key_fault(children.take(i), case_insensitive) is Some,
    ensures
        first_key_fault(children.take(k), case_insensitive) == first_key_fault(
            children.take(i),
            case_insensitive,
        ),
    decreases k - i,
{
    if i < k {
        lemma_first_fault_stays(children, case_insensitive, i, k - 1);
        assert(children.take(k).drop_last() =~= children.take(k - 1));
    }
}

/// A fault met while the first children are compiled is the fault of compiling all of them.
proof fn lemma_compile_fault_stays(
    children: Branches,
    globbed: bool,
    skip_invalid: bool,
    case_insensitive: bool,
    i: int,
    k: int,
)
    requires
        0 <= i <= k <= children.len(),
        compile_all(children.take(i), globbed, skip_invalid, case_insensitive) is Err,
    ensures
        compile_all(children.take(k), globbed, skip_invalid, case_insensitive) == compile_all(
            children.take(i),
            globbed,
            skip_invalid,
            case_insensitive,
        ),
    decreases k - i,
{
    if i < k {
        lemma_compile_fault_stays(children, globbed, skip_invalid, case_insensitive, i, k - 1);
        assert(children.take(k).drop_last() =~= children.take(k - 1));
    }
}

impl WalkPlanNodeCompiled {
    /// Compiles a plan: literal keys stay as they are, and the keys of every other node
    /// become one set of globs, matched with or without regard to case as
    /// `case_insensitive` says.
    ///
    /// With `skip_invalid` a key that is no valid glob is left out together with what
    /// hangs under it, a set that cannot be built matches nothing, and the result is always
    /// a compiled plan. Without it the first fault is returned: that of a key before that of
    /// the set, and both before the faults further down.
    #[verifier::loop_isolation(false)]
    pub fn new(node: &WalkPlanNode, skip_invalid: bool, case_insensitive: bool) -> (r: Result<
        Self,
        GlobError,
    >)
        ensures
            match compile(node@, skip_invalid, case_insensitive) {
                Ok(plan) => r matches Ok(compiled) && compiled@ == plan,
                Err(fault) => r matches Err(error) && error@ == fault,
            },
            skip_invalid ==> r is Ok,
            r matches Ok(compiled) ==> compiled_wf(compiled@),
        decreases node@,
    {
        proof {
            if skip_invalid {
                lemma_skip_invalid_compiles(node@, case_insensitive);
            }
            if compile(node@, skip_invalid, case_insensitive) is Ok {
                lemma_compile_wf(node@, skip_invalid, case_insensitive);
            }
        }
        let n = node.len();
        let ghost children = node@.children;
        let globbed = match node.node_type() {
            WalkNodeType::Path => false,
            _ => true,
        };
        let recursive = match node.node_type() {
            WalkNodeType::Walk => true,
            _ => false,
        };
        let mut usable: Vec<bool> = Vec::new();
        let matcher: WalkNodeMatcher;
        if !globbed {
            let mut paths: Vec<String> = Vec::new();
            let mut i: usize = 0;
            while i < n
                invariant
                    i <= n,
                    n == children.len(),
                    children == node@.children,
                    crate::path::texts(paths@) == keys_of(children).take(i as int),
                decreases n - i,
            {
                let ghost before = crate::path::texts(paths@);
                paths.push(node.key(i).clone());
                assert(crate::path::texts(paths@) =~= before.push(children[i as int].0));
                assert(keys_of(children).take(i + 1) =~= keys_of(children).take(i as int).push(
                    children[i as int].0,
                ));
                i += 1;
            }
            assert(keys_of(children).take(n as int) =~= keys_of(children));
            matcher = WalkNodeMatcher::Path { paths };
        } else {
            let mut builder = new_set_builder();
            let mut i: usize = 0;
            assert(children.take(0) =~= Seq::empty());
            while i < n
                invariant
                    i <= n,
                    n == children.len(),
                    children == node@.children,
                    usable@.len() == i,
                    forall|j: int|
                        0 <= j < i ==> usable@[j] == (glob_fault(
                            (#[trigger] children[j]).0,
                            case_insensitive,
                        ) is None),
                    crate::glob::builder_globs(builder) == valid_globs(
                        children.take(i as int),
                        case_insensitive,
                    ),
                    !skip_invalid ==> first_key_fault(children.take(i as int), case_insensitive) is None,
                decreases n - i,
            {
                proof {
                    assert(children.take(i + 1).drop_last() =~= children.take(i as int));
                    assert(children.take(i + 1).last() == children[i as int]);
                }
                match compile_glob(node.key(i).as_str(), case_insensitive) {
                    Ok(glob) => {
                        add_glob(&mut builder, glob);
                        usable.push(true);
                    },
                    Err(failure) => {
                        if !skip_invalid {
                            proof {
                                assert(first_key_fault(children.take(i + 1), case_insensitive) is Some);
                                lemma_first_fault_stays(children, case_insensitive, i + 1, n as int);
                                assert(children.take(n as int) =~= children);
                            }
                            return Err(GlobError::from_failure(&failure));
                        }
                        usable.push(false);
                    },
                }
                i += 1;
            }
            assert(children.take(n as int) =~= children);
            match build_set(&builder) {
                Ok(globset) => {
                    matcher = WalkNodeMatcher::Walk { globset, recursive };
                },
                Err(failure) => {
                    if skip_invalid {
                        let compiled = WalkPlanNodeCompiled {
                            matcher: WalkNodeMatcher::Walk { globset: empty_set(), recursive },
                            is_terminal: node.is_terminal(),
                            destinations: Vec::new(),
                        };
                        assert(compiled@.destinations =~= Seq::empty());
                        return Ok(compiled);
                    } else {
                        return Err(GlobError::from_failure(&failure));
                    }
                },
            }
        }
        let mut destinations: Vec<WalkPlanNodeCompiled> = Vec::new();
        let mut i: usize = 0;
        assert(children.take(0) =~= Seq::empty());
        assert(destinations_of(destinations@) =~= Seq::empty());
        while i < n
            invariant
                i <= n,
                n == children.len(),
                children == node@.children,
                globbed ==> usable@.len() == n,
                globbed ==> forall|j: int|
                    0 <= j < n ==> usable@[j] == (glob_fault((#[trigger] children[j]).0, case_insensitive)
                        is None),
                compile_all(children.take(i as int), globbed, skip_invalid, case_insensitive) == Ok::<
                    Seq<CompiledView>,
                    GlobFault,
                >(destinations_of(destinations@)),
            decreases n - i,
        {
            proof {
                assert(children.take(i + 1).drop_last() =~= children.take(i as int));
                assert(children.take(i + 1).last() == children[i as int]);
                lemma_destinations_of(destinations@);
            }
            if !globbed || usable[i] {
                match Self::new(node.child(i), skip_invalid, case_insensitive) {
                    Ok(compiled) => {
                        let ghost before = destinations_of(destinations@);
                        destinations.push(compiled);
                        proof {
                            lemma_destinations_of(destinations@);
                            assert(destinations_of(destinations@) =~= before.push(compiled@));
                        }
                    },
                    Err(error) => {
                        proof {
                            lemma_compile_fault_stays(
                                children,
                                globbed,
                                skip_invalid,
                                case_insensitive,
                                i + 1,
                                n as int,
                            );
                            assert(children.take(n as int) =~= children);
                        }
                        return Err(error);
                    },
                }
            }
            i += 1;
        }
        assert(children.take(n as int) =~= children);
        Ok(WalkPlanNodeCompiled { matcher, is_terminal: node.is_terminal(), destinations })
    }
}

/// A plan that compiles gives a compiled plan in which every node has as many destinations
/// as its matcher has patterns.
pub proof fn lemma_compile_wf(node: PlanView, skip_invalid: bool, case_insensitive: bool)
    requires
        compile(node, skip_invalid, case_insensitive) is Ok,
    ensures
        compiled_wf(compile(node, skip_invalid, case_insensitive)->Ok_0),
    decreases node, 1int,
{
    if node.kind == WalkNodeType::Path {
        lemma_compile_all_wf(node.children, false, skip_invalid, case_insensitive);
    } else if set_fault(valid_globs(node.children, case_insensitive)) is None {
        lemma_compile_all_wf(node.children, true, skip_invalid, case_insensitive);
    }
}

proof fn lemma_compile_all_wf(children: Branches, globbed: bool, skip_invalid: bool, case_insensitive: bool)
    requires
        compile_all(children, globbed, skip_invalid, case_insensitive) is Ok,
    ensures
        ({
            let compiled = compile_all(children, globbed, skip_invalid, case_insensitive)->Ok_0;
            &&& globbed ==> compiled.len() == valid_globs(children, case_insensitive).len()
            &&& !globbed ==> compiled.len() == children.len()
            &&& forall|i: int| 0 <= i < compiled.len() ==> compiled_wf(#[trigger] compiled[i])
        }),
    decreases children, 0int,
{
    if children.len() > 0 {
        lemma_compile_all_wf(children.drop_last(), globbed, skip_invalid, case_insensitive);
        if !(globbed && glob_fault(children.last().0, case_insensitive) is Some) {
            lemma_compile_wf(children.last().1, skip_invalid, case_insensitive);
        }
    }
}

/// With `skip_invalid` every plan compiles.
pub proof fn lemma_skip_invalid_compiles(node: PlanView, case_insensitive: bool)
    ensures
        compile(node, true, case_insensitive) is Ok,
    decreases node, 1int,
{
    lemma_skip_invalid_compiles_all(node.children, false, case_insensitive);
    lemma_skip_invalid_compiles_all(node.children, true, case_insensitive);
}

proof fn lemma_skip_invalid_compiles_all(children: Branches, globbed: bool, case_insensitive: bool)
    ensures
        compile_all(children, globbed, true, case_insensitive) is Ok,
    decreases children, 0int,
{
    if children.len() > 0 {
        lemma_skip_invalid_compiles_all(children.drop_last(), globbed, case_insensitive);
        lemma_skip_invalid_compiles(children.last().1, case_insensitive);
    }
}

/// A copy of a list of strings.
pub(crate) fn clone_strings(list: &Vec<String>) -> (copy: Vec<String>)
    ensures
        copy@ == list@,
{
    let mut copy: Vec<String> = Vec::new();
    let mut i: usize = 0;
    while i < list.len()
        invariant
            i <= list.len(),
            copy@ == list@.take(i as int),
        decreases list.len() - i,
    {
        copy.push(list[i].clone());
        assert(copy@ =~= list@.take(i + 1));
        i += 1;
    }
    assert(list@.take(i as int) =~= list@);
    copy
}

impl Clone for WalkNodeMatcher {
    fn clone(&self) -> (copy: Self)
        ensures
            copy@ == self@,
    {
        match self {
            WalkNodeMatcher::Path { paths } => WalkNodeMatcher::Path { paths: clone_strings(paths) },
            WalkNodeMatcher::Walk { globset, recursive } => WalkNodeMatcher::Walk {
                globset: clone_set(globset),
                recursive: *recursive,
            },
        }
    }
}

impl Clone for WalkPlanNodeCompiled {
    fn clone(&self) -> (copy: Self)
        ensures
            copy@ == self@,
        decreases self,
    {
        let mut destinations: Vec<WalkPlanNodeCompiled> = Vec::new();
        let mut i: usize = 0;
        while i < self.destinations.len()
            invariant
                i <= self.destinations.len(),
                destinations@.len() == i,
                forall|j: int| 0 <= j < i ==> (#[trigger] destinations@[j])@ == self.destinations@[j]@,
            decreases self.destinations.len() - i,
        {
            destinations.push(self.destinations[i].clone());
            i += 1;
        }
        proof {
            lemma_destinations_of(destinations@);
            lemma_destinations_of(self.destinations@);
            assert(destinations_of(destinations@) =~= destinations_of(self.destinations@));
        }
        WalkPlanNodeCompiled { matcher: self.matcher.clone(), is_terminal: self.is_terminal, destinations }
    }
}

} // verus!
