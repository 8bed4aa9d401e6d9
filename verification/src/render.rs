//! Descriptions of plans and compiled plans on one line.

use crate::compile::{lemma_destinations_of, CompiledView, MatcherView, WalkNodeMatcher, WalkPlanNodeCompiled};
use crate::plan::{Branches, PlanView, WalkNodeType, WalkPlanNode};
use vstd::prelude::*;
use vstd::string::StringExecFns;

verus! {

/// The name of a kind of node.
pub open spec fn kind_name(kind: WalkNodeType) -> Seq<char> {
    match kind {
        WalkNodeType::Path => "Path"@,
        WalkNodeType::Glob => "Glob"@,
        WalkNodeType::Walk => "Walk"@,
    }
}

/// The mark of a node whose path is a result.
pub open spec fn terminal_mark(terminal: bool) -> Seq<char> {
    if terminal {
        "[T]"@
    } else {
        Seq::empty()
    }
}

/// The words between two fields of a description: nothing before the first field.
pub open spec fn comma(first: bool) -> Seq<char> {
    if first {
        Seq::empty()
    } else {
        ", "@
    }
}

/// What a plan is called in a description: `Terminal` for a result without children, and
/// else its kind, marked where its path is a result.
pub open spec fn plan_name(node: PlanView) -> Seq<char> {
    if node.children.len() == 0 && node.terminal {
        "Terminal"@
    } else {
        kind_name(node.kind) + terminal_mark(node.terminal)
    }
}

/// The description of a plan: its name, and between braces each child as its key, a colon
/// and the description of the child.
pub open spec fn plan_text(node: PlanView) -> Seq<char>
    decreases node, 0int,
{
    if node.children.len() == 0 {
        plan_name(node)
    } else {
        plan_name(node) + " { "@ + fields_text(node.children, node.children.len() as int) + " }"@
    }
}

/// The descriptions of the first `n` children, with commas between them.
pub open spec fn fields_text(children: Branches, n: int) -> Seq<char>
    decreases children, n,
{
    if n <= 0 || n > children.len() {
        Seq::empty()
    } else {
        fields_text(children, n - 1) + comma(n == 1) + children[n - 1].0 + ": "@ + plan_text(children[n - 1].1)
    }
}

/// What a compiled plan is called in a description.
pub open spec fn compiled_name(node: CompiledView) -> Seq<char> {
    if node.destinations.len() == 0 && node.terminal {
        "Terminal"@
    } else {
        (match node.matcher {
            MatcherView::Path { .. } => "Path"@,
            MatcherView::Walk { .. } => "Glob"@,
        }) + terminal_mark(node.terminal)
    }
}

/// The first `n` of `paths`, each between double quotes as it is, with commas between them.
pub open spec fn paths_text(paths: Seq<Seq<char>>, n: int) -> Seq<char>
    decreases n,
{
    if n <= 0 {
        Seq::empty()
    } else {
        paths_text(paths, n - 1) + comma(n == 1) + "\""@ + paths[n - 1] + "\""@
    }
}

/// What a description says of a matcher: the list of its literal segments, if it has any,
/// or that it holds a set of globs and whether it is recursive.
pub open spec fn matcher_text(matcher: MatcherView) -> Seq<char> {
    match matcher {
        MatcherView::Path { paths } => if paths.len() == 0 {
            Seq::empty()
        } else {
            "paths: ["@ + paths_text(paths, paths.len() as int) + "]"@
        },
        MatcherView::Walk { recursive, .. } => "globset: \"..\", recursive: "@ + (if recursive {
            "true"@
        } else {
            "false"@
        }),
    }
}

/// The description of a compiled plan: its name, and between braces what its matcher holds
/// and the list of its destinations, as far as there is anything to say.
pub open spec fn compiled_text(node: CompiledView) -> Seq<char>
    decreases node, 0int,
{
    let matcher = matcher_text(node.matcher);
    let destinations = if node.destinations.len() == 0 {
        Seq::empty()
    } else {
        comma(matcher.len() == 0) + "destinations: ["@ + destinations_text(
            node.destinations,
            node.destinations.len() as int,
        ) + "]"@
    };
    if matcher.len() == 0 && node.destinations.len() == 0 {
        compiled_name(node)
    } else {
        compiled_name(node) + " { "@ + matcher + destinations + " }"@
    }
}

/// The descriptions of the first `n` destinations, with commas between them.
pub open spec fn destinations_text(nodes: Seq<CompiledView>, n: int) -> Seq<char>
    decreases nodes, n,
{
    if n <= 0 || n > nodes.len() {
        Seq::empty()
    } else {
        destinations_text(nodes, n - 1) + comma(n == 1) + compiled_text(nodes[n - 1])
    }
}

impl WalkPlanNode {
    /// A description of the plan on one line, such as `Path { a: Glob { *.rs: Terminal } }`.
    pub fn describe(&self) -> (text: String)
        ensures
            text@ == plan_text(self@),
        decreases self@,
    {
        let n = self.len();
        let mut text = String::new();
        if n == 0 && self.is_terminal() {
            text.append("Terminal");
        } else {
            match self.node_type() {
                WalkNodeType::Path => text.append("Path"),
                WalkNodeType::Glob => text.append("Glob"),
                WalkNodeType::Walk => text.append("Walk"),
            }
            if self.is_terminal() {
                text.append("[T]");
            }
        }
        assert(text@ =~= plan_name(self@));
        if n == 0 {
            return text;
        }
        text.append(" { ");
        let ghost head = text@;
        let mut i: usize = 0;
        while i < n
            invariant
                i <= n,
                n == self@.children.len(),
                text@ == head + fields_text(self@.children, i as int),
            decreases n - i,
        {
            let ghost before = text@;
            if i > 0 {
                text.append(", ");
            }
            text.append(self.key(i).as_str());
            text.append(": ");
            let child = self.child(i).describe();
            text.append(child.as_str());
            assert(text@ =~= head + fields_text(self@.children, i + 1));
            i += 1;
        }
        text.append(" }");
        text
    }
}

impl WalkPlanNodeCompiled {
    /// A description of the compiled plan on one line, such as
    /// `Path { paths: ["a"], destinations: [Glob { globset: "..", recursive: false, destinations: [Terminal] }] }`.
    pub fn describe(&self) -> (text: String)
        ensures
            text@ == compiled_text(self@),
        decreases self@,
    {
        proof {
            lemma_destinations_of(self.destinations@);
        }
        let n = self.destinations.len();
        let mut text = String::new();
        if n == 0 && self.is_terminal {
            text.append("Terminal");
        } else {
            match &self.matcher {
                WalkNodeMatcher::Path { .. } => text.append("Path"),
                WalkNodeMatcher::Walk { .. } => text.append("Glob"),
            }
            if self.is_terminal {
                text.append("[T]");
            }
        }
        assert(text@ =~= compiled_name(self@));
        let mut fields = String::new();
        match &self.matcher {
            WalkNodeMatcher::Path { paths } => {
                if paths.len() > 0 {
                    fields.append("paths: [");
                    let ghost head = fields@;
                    let mut i: usize = 0;
                    while i < paths.len()
                        invariant
                            i <= paths.len(),
                            fields@ == head + paths_text(crate::path::texts(paths@), i as int),
                        decreases paths.len() - i,
                    {
                        if i > 0 {
                            fields.append(", ");
                        }
                        fields.append("\"");
                        fields.append(paths[i].as_str());
                        fields.append("\"");
                        assert(fields@ =~= head + paths_text(crate::path::texts(paths@), i + 1));
                        i += 1;
                    }
                    fields.append("]");
                }
            },
            WalkNodeMatcher::Walk { recursive, .. } => {
                fields.append("globset: \"..\", recursive: ");
                if *recursive {
                    fields.append("true");
                } else {
                    fields.append("false");
                }
            },
        }
        assert(fields@ =~= matcher_text(self@.matcher));
        let ghost matcher = fields@;
        let bare = fields.as_str().unicode_len() == 0;
        if n > 0 {
            if !bare {
                fields.append(", ");
            }
            fields.append("destinations: [");
            let ghost head = fields@;
            let mut i: usize = 0;
            while i < n
                invariant
                    i <= n,
                    n == self.destinations@.len(),
                    n == self@.destinations.len(),
                    forall|j: int| 0 <= j < n ==> #[trigger] self@.destinations[j] == self.destinations@[j]@,
                    fields@ == head + destinations_text(self@.destinations, i as int),
                decreases n - i,
            {
                if i > 0 {
                    fields.append(", ");
                }
                assert(self.destinations@[i as int]@ == self@.destinations[i as int]);
                let one = self.destinations[i].describe();
                fields.append(one.as_str());
                assert(fields@ =~= head + destinations_text(self@.destinations, i + 1));
                i += 1;
            }
            fields.append("]");
        }
        if bare && n == 0 {
            return text;
        }
        text.append(" { ");
        text.append(fields.as_str());
        text.append(" }");
        assert(text@ =~= compiled_text(self@));
        text
    }
}

} // verus!
