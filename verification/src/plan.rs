//! Walk plans: a tree of path segments that says, for a group of patterns, where to look
//! up a name, where to list a directory, and where to walk a whole tree.

use crate::path::{join_path, path_joined, path_segments, split_components, texts};
use crate::util::{
    glob_like, has_double_star, is_glob_like, is_recursive, key_order, lemma_double_star_is_glob_like,
    lemma_text_lt_irreflexive, lemma_text_lt_total, lemma_text_lt_transitive, text_lt, KeyOrder,
};
use vstd::prelude::*;

verus! {

/// The three ways in which a node of a plan finds its children on disk.
#[derive(Clone, Copy, Debug, PartialEq, Eq, Structural)]
pub enum WalkNodeType {
    /// Every child is a literal segment, looked up by name.
    Path,
    /// Some child is a wildcard segment: the directory is listed and its entries are matched.
    Glob,
    /// The recursive wildcard was met: the whole tree below is walked and matched.
    Walk,
}

/// A plan as a mathematical tree: the kind of the node, whether its own path is a result, and
/// its children by key, in the order of keys.
pub struct PlanView {
    pub kind: WalkNodeType,
    pub terminal: bool,
    pub children: Seq<(Seq<char>, PlanView)>,
}

/// The children of a plan node: pairs of a key and the subtree under it.
pub type Branches = Seq<(Seq<char>, PlanView)>;

/// A node of a walk plan. Its children are kept in the order of their keys, no key twice.
#[derive(Debug)]
pub struct WalkPlanNode {
    node_type: WalkNodeType,
    is_terminal: bool,
    patterns: Vec<(String, WalkPlanNode)>,
}

/// The node without children whose path is no result: where every plan starts.
pub open spec fn blank() -> PlanView {
    PlanView { kind: WalkNodeType::Path, terminal: false, children: Seq::empty() }
}

/// The node without children whose path is a result.
pub open spec fn leaf() -> PlanView {
    PlanView { kind: WalkNodeType::Path, terminal: true, children: Seq::empty() }
}

/// `p` is the place of `key` among `children`: every key before `p` comes before `key`, and
/// the key at `p`, if there is one, does not.
pub open spec fn is_slot(children: Branches, key: Seq<char>, p: int) -> bool {
    &&& 0 <= p <= children.len()
    &&& forall|j: int| 0 <= j < p ==> text_lt(#[trigger] children[j].0, key)
    &&& p < children.len() ==> !text_lt(children[p].0, key)
}

/// The place of `key` among `children`.
pub open spec fn slot(children: Branches, key: Seq<char>) -> int {
    choose|p: int| is_slot(children, key, p)
}

/// Whether `key` is among `children`.
pub open spec fn has_key(children: Branches, key: Seq<char>) -> bool {
    slot(children, key) < children.len() && children[slot(children, key)].0 == key
}

/// The subtree under `key`, or a blank node where `children` has no such key.
pub open spec fn child_or_blank(children: Branches, key: Seq<char>) -> PlanView {
    if has_key(children, key) {
        children[slot(children, key)].1
    } else {
        blank()
    }
}

/// `children` with `value` under `key`: in the place of the old subtree where the key was
/// there, and else at the place that the order of keys gives it.
pub open spec fn upsert(children: Branches, key: Seq<char>, value: PlanView) -> Branches {
    if has_key(children, key) {
        children.update(slot(children, key), (key, value))
    } else {
        children.insert(slot(children, key), (key, value))
    }
}

/// The children that stand for a list of paths: one leaf under each path.
pub open spec fn leaves(paths: Seq<Seq<char>>) -> Branches
    decreases paths.len(),
{
    if paths.len() == 0 {
        Seq::empty()
    } else {
        upsert(leaves(paths.drop_last()), paths.last(), leaf())
    }
}

/// The first `n` of `parts` joined, one after the other, onto `start`.
pub open spec fn joined_onto(start: Seq<char>, parts: Seq<Seq<char>>, n: int) -> Seq<char>
    decreases n,
{
    if n <= 0 {
        start
    } else {
        path_joined(joined_onto(start, parts, n - 1), parts[n - 1])
    }
}

/// All of `parts` joined into one path, starting from the empty path.
pub open spec fn joined(parts: Seq<Seq<char>>) -> Seq<char> {
    joined_onto(Seq::empty(), parts, parts.len() as int)
}

/// The paths below `prefix` of all results among `children` and under them: each child's own
/// path first if it is a result, then what lies under it, child after child.
pub open spec fn collected(children: Branches, prefix: Seq<char>) -> Seq<Seq<char>>
    decreases children,
{
    if children.len() == 0 {
        Seq::empty()
    } else {
        let path = path_joined(prefix, children[0].0);
        let own = if children[0].1.terminal {
            seq![path]
        } else {
            Seq::empty()
        };
        own + collected(children[0].1.children, path) + collected(children.drop_first(), prefix)
    }
}

/// The plan `node` after the pattern whose segments are `parts` has been added to it.
pub open spec fn plan_insert(node: PlanView, parts: Seq<Seq<char>>) -> PlanView
    decreases parts.len(),
{
    if parts.len() == 0 {
        PlanView { terminal: true, ..node }
    } else if node.kind == WalkNodeType::Walk {
        PlanView { children: upsert(node.children, joined(parts), leaf()), ..node }
    } else if has_double_star(parts[0]) {
        PlanView {
            kind: WalkNodeType::Walk,
            terminal: node.terminal,
            children: upsert(leaves(collected(node.children, Seq::empty())), joined(parts), leaf()),
        }
    } else {
        PlanView {
            kind: if glob_like(parts[0]) {
                WalkNodeType::Glob
            } else {
                node.kind
            },
            terminal: node.terminal,
            children: upsert(
                node.children,
                parts[0],
                plan_insert(child_or_blank(node.children, parts[0]), parts.drop_first()),
            ),
        }
    }
}

/// The children of a node as the model sees them.
pub closed spec fn branches_of(entries: Seq<(String, WalkPlanNode)>) -> Branches
    decreases entries,
{
    if entries.len() == 0 {
        Seq::empty()
    } else {
        branches_of(entries.drop_last()).push((entries.last().0@, entries.last().1.view()))
    }
}

impl View for WalkPlanNode {
    type V = PlanView;

    closed spec fn view(&self) -> PlanView
        decreases self,
    {
        PlanView {
            kind: self.node_type,
            terminal: self.is_terminal,
            children: branches_of(self.patterns@),
        }
    }
}

proof fn lemma_branches_of(entries: Seq<(String, WalkPlanNode)>)
    ensures
        branches_of(entries).len() == entries.len(),
        forall|i: int|
            0 <= i < entries.len() ==> #[trigger] branches_of(entries)[i] == (
                entries[i].0@,
                entries[i].1@,
            ),
    decreases entries.len(),
{
    if entries.len() > 0 {
        let front = entries.drop_last();
        lemma_branches_of(front);
        assert(branches_of(entries) == branches_of(front).push((entries.last().0@, entries.last().1@)));
        assert forall|i: int| 0 <= i < entries.len() implies #[trigger] branches_of(entries)[i] == (
            entries[i].0@,
            entries[i].1@,
        ) by {
            if i < front.len() {
                assert(front[i] == entries[i]);
                assert(branches_of(entries)[i] == branches_of(front)[i]);
            }
        }
    }
}

impl WalkPlanNode {
    /// The kind of this node.
    pub fn node_type(&self) -> (kind: WalkNodeType)
        ensures
            kind == self@.kind,
    {
        self.node_type
    }

    /// Whether the path of this node is itself a result.
    pub fn is_terminal(&self) -> (terminal: bool)
        ensures
            terminal == self@.terminal,
    {
        self.is_terminal
    }

    /// The number of children.
    pub fn len(&self) -> (n: usize)
        ensures
            n == self@.children.len(),
    {
        proof {
            lemma_branches_of(self.patterns@);
        }
        self.patterns.len()
    }

    /// The key of the child at place `i`.
    pub fn key(&self, i: usize) -> (key: &String)
        requires
            i < self@.children.len(),
        ensures
            key@ == self@.children[i as int].0,
    {
        proof {
            lemma_branches_of(self.patterns@);
        }
        &self.patterns[i].0
    }

    /// The child at place `i`.
    pub fn child(&self, i: usize) -> (child: &WalkPlanNode)
        requires
            i < self@.children.len(),
        ensures
            child@ == self@.children[i as int].1,
    {
        proof {
            lemma_branches_of(self.patterns@);
        }
        &self.patterns[i].1
    }

    /// A node without children whose path is a result.
    pub fn terminal() -> (node: Self)
        ensures
            node@ == leaf(),
    {
        let node = WalkPlanNode { node_type: WalkNodeType::Path, is_terminal: true, patterns: Vec::new() };
        assert(node@.children =~= Seq::empty());
        node
    }
}

impl Default for WalkNodeType {
    fn default() -> (kind: Self)
        ensures
            kind == WalkNodeType::Path,
    {
        WalkNodeType::Path
    }
}

impl Clone for WalkPlanNode {
    fn clone(&self) -> (copy: Self)
        ensures
            copy@ == self@,
        decreases self,
    {
        let mut patterns: Vec<(String, WalkPlanNode)> = Vec::new();
        let mut i: usize = 0;
        while i < self.patterns.len()
            invariant
                i <= self.patterns.len(),
                patterns@.len() == i,
                forall|j: int|
                    0 <= j < i ==> (#[trigger] patterns@[j]).0@ == self.patterns@[j].0@ && patterns@[j].1@
                        == self.patterns@[j].1@,
            decreases self.patterns.len() - i,
        {
            patterns.push((self.patterns[i].0.clone(), self.patterns[i].1.clone()));
            i += 1;
        }
        proof {
            lemma_branches_of(patterns@);
            lemma_branches_of(self.patterns@);
            assert(branches_of(patterns@) =~= branches_of(self.patterns@));
        }
        WalkPlanNode { node_type: self.node_type, is_terminal: self.is_terminal, patterns }
    }
}

impl Default for WalkPlanNode {
    fn default() -> (node: Self)
        ensures
            node@ == blank(),
    {
        let node = WalkPlanNode { node_type: WalkNodeType::Path, is_terminal: false, patterns: Vec::new() };
        assert(node@.children =~= Seq::empty());
        node
    }
}

/// The texts of a list of string slices.
pub open spec fn strs(v: Seq<&str>) -> Seq<Seq<char>> {
    Seq::new(v.len(), |i: int| v[i]@)
}

/// A list of children has one place only for a key.
pub proof fn lemma_slot_unique(children: Branches, key: Seq<char>, p: int, q: int)
    requires
        is_slot(children, key, p),
        is_slot(children, key, q),
    ensures
        p == q,
{
    if p < q {
        assert(text_lt(children[p].0, key));
    } else if q < p {
        assert(text_lt(children[q].0, key));
    }
}

/// Where a place is known, it is the place that `slot` names.
pub proof fn lemma_slot_is(children: Branches, key: Seq<char>, p: int)
    requires
        is_slot(children, key, p),
    ensures
        slot(children, key) == p,
{
    lemma_slot_unique(children, key, p, slot(children, key));
}

impl WalkPlanNode {
    /// The place of `key` among the children, and whether the key is there.
    fn locate(&self, key: &str) -> (r: (usize, bool))
        ensures
            r.0 == slot(self@.children, key@),
            r.0 <= self@.children.len(),
            r.1 == has_key(self@.children, key@),
    {
        proof {
            lemma_branches_of(self.patterns@);
            lemma_text_lt_irreflexive(key@);
        }
        let mut i: usize = 0;
        while i < self.patterns.len()
            invariant
                i <= self.patterns.len(),
                self.patterns@.len() == self@.children.len(),
                forall|j: int|
                    0 <= j < self.patterns@.len() ==> #[trigger] self@.children[j] == (
                        self.patterns@[j].0@,
                        self.patterns@[j].1@,
                    ),
                forall|j: int| 0 <= j < i ==> text_lt(#[trigger] self@.children[j].0, key@),
                !text_lt(key@, key@),
            decreases self.patterns.len() - i,
        {
            match key_order(self.patterns[i].0.as_str(), key) {
                KeyOrder::Before => {
                    assert(self@.children[i as int].0 == self.patterns@[i as int].0@);
                    i += 1;
                },
                KeyOrder::Same => {
                    proof {
                        assert(self@.children[i as int].0 == key@);
                        assert(is_slot(self@.children, key@, i as int));
                        lemma_slot_is(self@.children, key@, i as int);
                    }
                    return (i, true);
                },
                KeyOrder::After => {
                    proof {
                        assert(self@.children[i as int].0 == self.patterns@[i as int].0@);
                        assert(is_slot(self@.children, key@, i as int));
                        lemma_slot_is(self@.children, key@, i as int);
                    }
                    return (i, false);
                },
            }
        }
        proof {
            assert(is_slot(self@.children, key@, i as int));
            lemma_slot_is(self@.children, key@, i as int);
        }
        (i, false)
    }

    /// Puts `value` under `key`, in the place of what was there under that key.
    fn put(&mut self, key: String, value: WalkPlanNode)
        ensures
            final(self)@ == (PlanView {
                children: upsert(old(self)@.children, key@, value@),
                ..old(self)@
            }),
    {
        let (p, found) = self.locate(key.as_str());
        proof {
            lemma_branches_of(self.patterns@);
        }
        let ghost before = self.patterns@;
        let ghost pair = (key@, value@);
        if found {
            self.patterns.set(p, (key, value));
        } else {
            self.patterns.insert(p, (key, value));
        }
        proof {
            lemma_branches_of(self.patterns@);
            assert(branches_of(self.patterns@) =~= upsert(branches_of(before), pair.0, pair.1));
        }
    }

    /// The segments of `parts` from place `from` on, joined into one path.
    fn make_path(parts: &[&str], from: usize) -> (path: String)
        requires
            from <= parts.len(),
        ensures
            path@ == joined(strs(parts@).skip(from as int)),
    {
        assert(strs(parts@).subrange(from as int, parts@.len() as int) =~= strs(parts@).skip(from as int));
        join_onto(String::new(), parts, from, parts.len())
    }
}

/// The segments of `parts` from place `from` up to place `to`, joined one after the other
/// onto `start`.
pub fn join_onto(start: String, parts: &[&str], from: usize, to: usize) -> (path: String)
    requires
        from <= to <= parts.len(),
    ensures
        path@ == joined_onto(start@, strs(parts@).subrange(from as int, to as int), to - from),
{
    let ghost range = strs(parts@).subrange(from as int, to as int);
    let mut path = start;
    let mut i: usize = from;
    while i < to
        invariant
            from <= i <= to <= parts.len(),
            range == strs(parts@).subrange(from as int, to as int),
            path@ == joined_onto(start@, range, i - from),
        decreases to - i,
    {
        assert(range[i - from] == parts@[i as int]@);
        path = join_path(path.as_str(), parts[i]);
        i += 1;
    }
    path
}

/// What `collected` gives for the children from place `i` on.
proof fn lemma_collected_step(children: Branches, i: int, prefix: Seq<char>)
    requires
        0 <= i < children.len(),
    ensures
        collected(children.skip(i), prefix) == ({
            let path = path_joined(prefix, children[i].0);
            let own = if children[i].1.terminal {
                seq![path]
            } else {
                Seq::empty()
            };
            own + collected(children[i].1.children, path) + collected(children.skip(i + 1), prefix)
        }),
{
    let rest = children.skip(i);
    assert(rest[0] == children[i]);
    assert(rest.drop_first() =~= children.skip(i + 1));
}

/// Adds to `out` the paths below `prefix` of all results among `entries` and under them.
fn gather(entries: &Vec<(String, WalkPlanNode)>, prefix: &str, out: &mut Vec<String>)
    ensures
        texts(final(out)@) == texts(old(out)@) + collected(branches_of(entries@), prefix@),
    decreases entries,
{
    let ghost children = branches_of(entries@);
    let ghost start = texts(out@);
    proof {
        lemma_branches_of(entries@);
        assert(children.skip(0) =~= children);
    }
    let mut i: usize = 0;
    while i < entries.len()
        invariant
            i <= entries.len(),
            children == branches_of(entries@),
            children.len() == entries@.len(),
            forall|j: int|
                0 <= j < entries@.len() ==> #[trigger] children[j] == (entries@[j].0@, entries@[j].1@),
            texts(out@) + collected(children.skip(i as int), prefix@) == start + collected(
                children,
                prefix@,
            ),
        decreases entries.len() - i,
    {
        let ghost seen = texts(out@);
        let path = join_path(prefix, entries[i].0.as_str());
        if entries[i].1.is_terminal {
            out.push(path.clone());
            assert(texts(out@) =~= seen + seq![path@]);
        }
        let ghost with_own = texts(out@);
        gather(&entries[i].1.patterns, path.as_str(), out);
        proof {
            lemma_collected_step(children, i as int, prefix@);
            let sub = collected(children[i as int].1.children, path@);
            let tail = collected(children.skip(i + 1), prefix@);
            assert(texts(out@) == with_own + sub);
            assert(children[i as int].1 == entries@[i as int].1@);
            assert((with_own + sub) + tail =~= seen + collected(children.skip(i as int), prefix@));
        }
        i += 1;
    }
    proof {
        assert(children.skip(i as int) =~= Seq::<(Seq<char>, PlanView)>::empty());
        assert(texts(out@) + Seq::<Seq<char>>::empty() =~= texts(out@));
    }
}

impl WalkPlanNode {
    /// Moves the whole subtree under this node into `out`, as the list of the paths below
    /// `path` of its results, and leaves the node without children.
    pub fn collect(&mut self, path: String, out: &mut Vec<String>)
        ensures
            final(self)@ == (PlanView { children: Seq::empty(), ..old(self)@ }),
            texts(final(out)@) == texts(old(out)@) + collected(old(self)@.children, path@),
    {
        gather(&self.patterns, path.as_str(), out);
        self.patterns = Vec::new();
        assert(branches_of(self.patterns@) =~= Seq::empty());
    }

    /// From a list of patterns, each split into its segments.
    fn insert_from(&mut self, parts: &[&str], from: usize)
        requires
            from <= parts.len(),
        ensures
            final(self)@ == plan_insert(old(self)@, strs(parts@).skip(from as int)),
        decreases parts.len() - from,
    {
        let ghost rest = strs(parts@).skip(from as int);
        if from >= parts.len() {
            self.is_terminal = true;
            return ;
        }
        assert(rest[0] == parts@[from as int]@);
        assert(rest.drop_first() =~= strs(parts@).skip(from + 1));
        if self.node_type == WalkNodeType::Walk {
            let path = Self::make_path(parts, from);
            self.put(path, Self::terminal());
            return ;
        }
        let part = parts[from];
        if is_recursive(part) {
            self.node_type = WalkNodeType::Walk;
            let mut paths: Vec<String> = Vec::new();
            self.collect(String::new(), &mut paths);
            assert(texts(paths@) =~= collected(old(self)@.children, Seq::empty()));
            let ghost all = texts(paths@);
            let mut i: usize = 0;
            while i < paths.len()
                invariant
                    i <= paths.len(),
                    all == texts(paths@),
                    self@ == (PlanView {
                        kind: WalkNodeType::Walk,
                        terminal: old(self)@.terminal,
                        children: leaves(all.take(i as int)),
                    }),
                decreases paths.len() - i,
            {
                proof {
                    let next = all.take(i + 1);
                    assert(next.drop_last() =~= all.take(i as int));
                    assert(next.last() == paths@[i as int]@);
                }
                self.put(paths[i].clone(), Self::terminal());
                i += 1;
            }
            assert(all.take(i as int) =~= all);
            let path = Self::make_path(parts, from);
            self.put(path, Self::terminal());
        } else {
            if is_glob_like(part) {
                self.node_type = WalkNodeType::Glob;
            }
            let (p, found) = self.locate(part);
            let ghost before = self@;
            let ghost entries = self.patterns@;
            proof {
                lemma_branches_of(entries);
            }
            if !found {
                self.patterns.insert(p, (part.to_owned(), WalkPlanNode::default()));
            }
            let ghost ready = self.patterns@;
            proof {
                lemma_branches_of(ready);
                assert(ready[p as int].1@ == child_or_blank(before.children, part@));
            }
            self.patterns[p].1.insert_from(parts, from + 1);
            proof {
                lemma_branches_of(self.patterns@);
                assert(self.patterns@[p as int].0 == ready[p as int].0);
                assert(branches_of(self.patterns@) =~= upsert(
                    before.children,
                    part@,
                    plan_insert(child_or_blank(before.children, part@), rest.drop_first()),
                ));
            }
        }
    }

    /// Adds to the plan the pattern whose segments are `parts`.
    ///
    /// An empty list marks this node as a result. Below a node of kind `Walk` the segments
    /// are joined into one key. A first segment with the recursive wildcard turns this node
    /// into one of kind `Walk`: what was planned below it is flattened into keys, beside the
    /// key of the joined segments. Any other first segment becomes the key of a child, which
    /// takes the segments that follow; a wildcard in it makes this a node of kind `Glob`.
    pub fn insert(&mut self, parts: &[&str])
        ensures
            final(self)@ == plan_insert(old(self)@, strs(parts@)),
            plan_wf(old(self)@) ==> plan_wf(final(self)@),
    {
        assert(strs(parts@).skip(0) =~= strs(parts@));
        proof {
            if plan_wf(self@) {
                lemma_plan_insert_wf(self@, strs(parts@));
            }
        }
        self.insert_from(parts, 0);
    }

    /// Leaves the plan as it is: literal subtrees are not squashed into keys of several
    /// segments, since a segment may be a symbolic link.
    pub fn optimize(&mut self)
        ensures
            final(self)@ == old(self)@,
    {
    }

    /// The plan for a list of patterns: each pattern split into its segments and added, in
    /// the order of the list, to a node that starts blank.
    pub fn build(patterns: &[String]) -> (root: Self)
        ensures
            root@ == plan_of(texts(patterns@)),
            plan_wf(root@),
    {
        let mut root = Self::default();
        let ghost all = texts(patterns@);
        let mut i: usize = 0;
        while i < patterns.len()
            invariant
                i <= patterns.len(),
                all == texts(patterns@),
                root@ == plan_of(all.take(i as int)),
                plan_wf(root@),
            decreases patterns.len() - i,
        {
            let owned = split_pattern(patterns[i].as_str());
            let parts = borrow_all(&owned);
            proof {
                assert(all.take(i + 1).drop_last() =~= all.take(i as int));
                assert(all.take(i + 1).last() == patterns@[i as int]@);
            }
            root.insert(parts.as_slice());
            i += 1;
        }
        assert(all.take(i as int) =~= all);
        root.optimize();
        root
    }
}

/// Whether a segment stands for the current directory.
pub open spec fn is_cur_dir(part: Seq<char>) -> bool {
    part.len() == 1 && part[0] == '.'
}

/// The test that keeps every segment but the one for the current directory.
pub open spec fn keep_part() -> spec_fn(Seq<char>) -> bool {
    |part: Seq<char>| !is_cur_dir(part)
}

/// The segments of a pattern that the plan goes by: its components under the host's path
/// grammar, without the one for the current directory.
pub open spec fn pattern_parts(pattern: Seq<char>) -> Seq<Seq<char>> {
    path_segments(pattern).filter(keep_part())
}

/// The plan for a list of patterns.
pub open spec fn plan_of(patterns: Seq<Seq<char>>) -> PlanView
    decreases patterns.len(),
{
    if patterns.len() == 0 {
        blank()
    } else {
        plan_insert(plan_of(patterns.drop_last()), pattern_parts(patterns.last()))
    }
}

/// The segments of a pattern that the plan goes by.
pub fn split_pattern(pattern: &str) -> (parts: Vec<String>)
    ensures
        texts(parts@) == pattern_parts(pattern@),
{
    let segments = split_components(pattern);
    let ghost segs = texts(segments@);
    let mut parts: Vec<String> = Vec::new();
    let mut j: usize = 0;
    proof {
        reveal(Seq::filter);
        assert(segs.take(0).filter(keep_part()) =~= texts(parts@));
    }
    while j < segments.len()
        invariant
            j <= segments.len(),
            segs == texts(segments@),
            texts(parts@) == segs.take(j as int).filter(keep_part()),
        decreases segments.len() - j,
    {
        let ghost kept = texts(parts@);
        proof {
            reveal(Seq::filter);
            assert(segs.take(j + 1).drop_last() =~= segs.take(j as int));
            assert(segs.take(j + 1).last() == segments@[j as int]@);
        }
        if !is_current_dir(segments[j].as_str()) {
            parts.push(segments[j].clone());
            assert(texts(parts@) =~= kept.push(segments@[j as int]@));
        }
        j += 1;
    }
    assert(segs.take(j as int) =~= segs);
    parts
}

/// The strings of a list, borrowed.
pub fn borrow_all(list: &Vec<String>) -> (slices: Vec<&str>)
    ensures
        strs(slices@) == texts(list@),
{
    let mut slices: Vec<&str> = Vec::new();
    let mut i: usize = 0;
    while i < list.len()
        invariant
            i <= list.len(),
            strs(slices@) == texts(list@).take(i as int),
        decreases list.len() - i,
    {
        let ghost before = strs(slices@);
        slices.push(list[i].as_str());
        assert(strs(slices@) =~= before.push(list@[i as int]@));
        assert(texts(list@).take(i + 1) =~= texts(list@).take(i as int).push(list@[i as int]@));
        i += 1;
    }
    assert(texts(list@).take(i as int) =~= texts(list@));
    slices
}

/// Whether a segment stands for the current directory.
pub fn is_current_dir(part: &str) -> (r: bool)
    ensures
        r == is_cur_dir(part@),
{
    let chars = crate::util::chars_of(part);
    chars.len() == 1 && chars[0] == '.'
}

/// The keys of `children` stand in the order of keys, no key twice.
pub open spec fn sorted(children: Branches) -> bool {
    forall|i: int, j: int|
        0 <= i < j < children.len() ==> text_lt(#[trigger] children[i].0, #[trigger] children[j].0)
}

/// What holds of every plan that was built by adding patterns to a blank node.
///
/// The children stand in the order of their keys. Below a node of kind `Walk` there are only
/// leaves: once recursion is unlocked, what follows is matched as one set of patterns at that
/// node. A node of kind `Path` has no key with a wildcard character; a node of kind `Glob` has
/// a key with one, and no key with the recursive wildcard.
pub open spec fn plan_wf(node: PlanView) -> bool
    decreases node,
{
    &&& sorted(node.children)
    &&& forall|i: int| 0 <= i < node.children.len() ==> plan_wf((#[trigger] node.children[i]).1)
    &&& match node.kind {
        WalkNodeType::Walk => forall|i: int|
            0 <= i < node.children.len() ==> (#[trigger] node.children[i]).1 == leaf(),
        WalkNodeType::Glob => {
            &&& exists|i: int| 0 <= i < node.children.len() && glob_like((#[trigger] node.children[i]).0)
            &&& forall|i: int|
                0 <= i < node.children.len() ==> !has_double_star((#[trigger] node.children[i]).0)
        },
        WalkNodeType::Path => forall|i: int|
            0 <= i < node.children.len() ==> !glob_like((#[trigger] node.children[i]).0),
    }
}

/// Every list of children has a place for a key.
pub proof fn lemma_slot_exists(children: Branches, key: Seq<char>)
    ensures
        is_slot(children, key, slot(children, key)),
{
    lemma_slot_from(children, key, 0);
}

proof fn lemma_slot_from(children: Branches, key: Seq<char>, i: int)
    requires
        0 <= i <= children.len(),
        forall|j: int| 0 <= j < i ==> text_lt(#[trigger] children[j].0, key),
    ensures
        exists|p: int| is_slot(children, key, p),
    decreases children.len() - i,
{
    if i < children.len() && text_lt(children[i].0, key) {
        lemma_slot_from(children, key, i + 1);
    } else {
        assert(is_slot(children, key, i));
    }
}

/// What `upsert` makes of a sorted list: the list stays sorted, the new subtree stands under
/// its key, and every other child is kept.
pub proof fn lemma_upsert(children: Branches, key: Seq<char>, value: PlanView)
    requires
        sorted(children),
    ensures
        sorted(upsert(children, key, value)),
        ({
            let p = slot(children, key);
            let r = upsert(children, key, value);
            &&& 0 <= p <= children.len()
            &&& p < r.len()
            &&& r[p] == (key, value)
            &&& has_key(children, key) ==> r.len() == children.len() && forall|i: int|
                0 <= i < r.len() && i != p ==> #[trigger] r[i] == children[i]
            &&& !has_key(children, key) ==> r.len() == children.len() + 1 && (forall|i: int|
                0 <= i < p ==> #[trigger] r[i] == children[i]) && (forall|i: int|
                p < i < r.len() ==> #[trigger] r[i] == children[i - 1])
        }),
{
    lemma_slot_exists(children, key);
    let p = slot(children, key);
    let r = upsert(children, key, value);
    if has_key(children, key) {
        assert forall|i: int, j: int| 0 <= i < j < r.len() implies text_lt(
            #[trigger] r[i].0,
            #[trigger] r[j].0,
        ) by {
            assert(r[i].0 == children[i].0);
            assert(r[j].0 == children[j].0);
        }
    } else {
        assert forall|i: int, j: int| 0 <= i < j < r.len() implies text_lt(
            #[trigger] r[i].0,
            #[trigger] r[j].0,
        ) by {
            if j < p {
                assert(r[i] == children[i] && r[j] == children[j]);
            } else if j == p {
                assert(r[i] == children[i]);
                assert(text_lt(children[i].0, key));
            } else {
                // the key at the slot comes after `key`
                assert(r[j] == children[j - 1]);
                lemma_text_lt_total(children[p].0, key);
                assert(text_lt(key, children[p].0));
                if j - 1 > p {
                    lemma_text_lt_transitive(key, children[p].0, children[j - 1].0);
                }
                assert(text_lt(key, r[j].0));
                if i < p {
                    assert(r[i] == children[i]);
                    lemma_text_lt_transitive(children[i].0, key, r[j].0);
                } else if i == p {
                } else {
                    assert(r[i] == children[i - 1]);
                }
            }
        }
    }
}

/// The children that stand for a list of paths are sorted leaves.
pub proof fn lemma_leaves(paths: Seq<Seq<char>>)
    ensures
        sorted(leaves(paths)),
        forall|i: int| 0 <= i < leaves(paths).len() ==> (#[trigger] leaves(paths)[i]).1 == leaf(),
    decreases paths.len(),
{
    if paths.len() > 0 {
        lemma_leaves(paths.drop_last());
        lemma_upsert(leaves(paths.drop_last()), paths.last(), leaf());
    }
}

/// Adding a pattern to a well-formed plan gives a well-formed plan.
pub proof fn lemma_plan_insert_wf(node: PlanView, parts: Seq<Seq<char>>)
    requires
        plan_wf(node),
    ensures
        plan_wf(plan_insert(node, parts)),
    decreases parts.len(),
{
    let after = plan_insert(node, parts);
    if parts.len() == 0 {
    } else if node.kind == WalkNodeType::Walk {
        lemma_upsert(node.children, joined(parts), leaf());
        assert(plan_wf(leaf()));
        assert(plan_wf(after));
    } else if has_double_star(parts[0]) {
        let base = leaves(collected(node.children, Seq::empty()));
        lemma_leaves(collected(node.children, Seq::empty()));
        lemma_upsert(base, joined(parts), leaf());
        assert(plan_wf(leaf()));
        assert forall|i: int| 0 <= i < after.children.len() implies (#[trigger] after.children[i]).1
            == leaf() by {
            let p = slot(base, joined(parts));
            if i != p {
                if has_key(base, joined(parts)) {
                    assert(after.children[i] == base[i]);
                } else if i < p {
                    assert(after.children[i] == base[i]);
                } else {
                    assert(after.children[i] == base[i - 1]);
                }
            }
        }
        assert(plan_wf(after));
    } else {
        let key = parts[0];
        let child = child_or_blank(node.children, key);
        let grown = plan_insert(child, parts.drop_first());
        lemma_slot_exists(node.children, key);
        let p = slot(node.children, key);
        if has_key(node.children, key) {
            assert(child == node.children[p].1);
        }
        assert(plan_wf(child));
        lemma_plan_insert_wf(child, parts.drop_first());
        lemma_upsert(node.children, key, grown);
        // each child of the new node is the new subtree or a child of the old node
        assert forall|i: int| 0 <= i < after.children.len() implies ({
            ||| (i == p && after.children[i] == (key, grown))
            ||| exists|j: int| 0 <= j < node.children.len() && #[trigger] node.children[j] == after.children[i]
        }) by {
            if i != p {
                if has_key(node.children, key) {
                    assert(node.children[i] == after.children[i]);
                } else if i < p {
                    assert(node.children[i] == after.children[i]);
                } else {
                    assert(node.children[i - 1] == after.children[i]);
                }
            }
        }
        assert forall|i: int| 0 <= i < after.children.len() implies plan_wf(
            (#[trigger] after.children[i]).1,
        ) by {
            if !(i == p && after.children[i] == (key, grown)) {
                let j = choose|j: int| 0 <= j < node.children.len() && #[trigger] node.children[j] == after.children[i];
                assert(plan_wf(node.children[j].1));
            }
        }
        assert forall|i: int| 0 <= i < after.children.len() implies !has_double_star(
            (#[trigger] after.children[i]).0,
        ) by {
            if !(i == p && after.children[i] == (key, grown)) {
                let j = choose|j: int| 0 <= j < node.children.len() && #[trigger] node.children[j] == after.children[i];
                if has_double_star(node.children[j].0) {
                    lemma_double_star_is_glob_like(node.children[j].0);
                }
            }
        }
        if after.kind == WalkNodeType::Path {
            assert forall|i: int| 0 <= i < after.children.len() implies !glob_like(
                (#[trigger] after.children[i]).0,
            ) by {
                if !(i == p && after.children[i] == (key, grown)) {
                    let j = choose|j: int| 0 <= j < node.children.len() && #[trigger] node.children[j] == after.children[i];
                    assert(!glob_like(node.children[j].0));
                }
            }
        } else {
            if glob_like(key) {
                assert(glob_like(after.children[p].0));
            } else {
                let j = choose|j: int| 0 <= j < node.children.len() && glob_like((#[trigger] node.children[j]).0);
                // the old witness is still there, at its place or one further
                if has_key(node.children, key) {
                    assert(j != p);
                    assert(after.children[j] == node.children[j]);
                } else if j < p {
                    assert(after.children[j] == node.children[j]);
                } else {
                    assert(after.children[j + 1] == node.children[j]);
                }
            }
        }
        assert(plan_wf(after));
    }
}

} // verus!
