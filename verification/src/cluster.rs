//! Clustering of patterns into groups by the literal path that they start with.

use crate::path::{final_component, path_final, texts};
use crate::plan::{borrow_all, join_onto, joined, joined_onto, pattern_parts, split_pattern, strs};
use crate::util::{glob_like, is_glob_like, same_text};
use vstd::prelude::*;

verus! {

/// A group of patterns: the literal path that they share, and what is left of each pattern
/// behind it.
pub type GroupView = (Seq<char>, Seq<Seq<char>>);

/// `k` is the first of the places below `n` that `hit` holds of, or `n` where it holds of none.
pub open spec fn is_first(n: int, hit: spec_fn(int) -> bool, k: int) -> bool {
    &&& 0 <= k <= n
    &&& forall|j: int| 0 <= j < k ==> !#[trigger] hit(j)
    &&& k < n ==> hit(k)
}

/// The first of the places below `n` that `hit` holds of, or `n` where it holds of none.
pub open spec fn first(n: int, hit: spec_fn(int) -> bool) -> int {
    choose|k: int| is_first(n, hit, k)
}

/// There is one first place only.
pub proof fn lemma_first_is(n: int, hit: spec_fn(int) -> bool, k: int)
    requires
        is_first(n, hit, k),
    ensures
        first(n, hit) == k,
{
    let c = first(n, hit);
    if c < k {
        assert(!hit(c));
    } else if k < c {
        assert(!hit(k));
    }
}

/// The test for a segment with a wildcard character, by its place among `segments`.
pub open spec fn wildcard_at(segments: Seq<Seq<char>>) -> spec_fn(int) -> bool {
    |j: int| glob_like(segments[j])
}

/// The test for a group with the base `base`, by its place among `groups`.
pub open spec fn base_at(groups: Seq<GroupView>, base: Seq<char>) -> spec_fn(int) -> bool {
    |j: int| groups[j].0 == base
}

/// How many leading segments of a pattern go to the base of its group: those before the
/// first segment with a wildcard character. Where no segment has one, the last segment stays
/// with the pattern if it is a name, so that the pattern says what to look for in the base.
pub open spec fn base_len(segments: Seq<Seq<char>>) -> int {
    let k = first(segments.len() as int, wildcard_at(segments));
    if k == segments.len() && k > 0 && path_final(segments[k - 1]) is Some {
        k - 1
    } else {
        k
    }
}

/// The path of the current directory.
pub open spec fn here() -> Seq<char> {
    seq!['.']
}

/// The base of the group of a pattern, relative to the base of the walk, and what is left of
/// the pattern behind it.
pub open spec fn pattern_split(pattern: Seq<char>) -> (Seq<char>, Seq<char>) {
    let segments = pattern_parts(pattern);
    let k = base_len(segments);
    (joined_onto(here(), segments, k), joined(segments.skip(k)))
}

/// The groups `groups` with the pattern `tail` added to the group of the base `base`: to the
/// group that has this base, or to a new last group.
pub open spec fn grouped(groups: Seq<GroupView>, base: Seq<char>, tail: Seq<char>) -> Seq<GroupView> {
    let i = first(groups.len() as int, base_at(groups, base));
    if i < groups.len() {
        groups.update(i, (base, groups[i].1.push(tail)))
    } else {
        groups.push((base, seq![tail]))
    }
}

/// The groups of a list of patterns: each pattern is split into the base of its group and
/// the rest, and the patterns of one base form one group. The groups stand in the order in
/// which their first patterns stand in the list, and so do the patterns of each group.
pub open spec fn clustered(patterns: Seq<Seq<char>>) -> Seq<GroupView>
    decreases patterns.len(),
{
    if patterns.len() == 0 {
        Seq::empty()
    } else {
        let split = pattern_split(patterns.last());
        grouped(clustered(patterns.drop_last()), split.0, split.1)
    }
}

/// A list of groups as the contracts see it.
pub open spec fn groups_view(groups: Seq<(String, Vec<String>)>) -> Seq<GroupView> {
    Seq::new(groups.len(), |i: int| (groups[i].0@, texts(groups[i].1@)))
}

/// Splits a pattern into the base of its group and the rest of the pattern.
pub fn split_glob(pattern: &str) -> (split: (String, String))
    ensures
        (split.0@, split.1@) == pattern_split(pattern@),
{
    let owned = split_pattern(pattern);
    let parts = borrow_all(&owned);
    let ghost segments = pattern_parts(pattern@);
    let mut k: usize = 0;
    while k < parts.len() && !is_glob_like(parts[k])
        invariant
            k <= parts.len(),
            strs(parts@) == segments,
            forall|j: int| 0 <= j < k ==> !(#[trigger] wildcard_at(segments)(j)),
        decreases parts.len() - k,
    {
        k += 1;
    }
    proof {
        assert(k < parts.len() ==> wildcard_at(segments)(k as int));
        assert(is_first(segments.len() as int, wildcard_at(segments), k as int));
        lemma_first_is(segments.len() as int, wildcard_at(segments), k as int);
    }
    if k == parts.len() && k > 0 {
        if final_component(parts[k - 1]).is_some() {
            k = k - 1;
        }
    }
    assert(k == base_len(segments));
    let base = join_onto(".".to_owned(), parts.as_slice(), 0, k);
    let tail = join_onto(String::new(), parts.as_slice(), k, parts.len());
    proof {
        reveal_strlit(".");
        assert("."@ =~= here());
        lemma_joined_same(here(), segments, segments.subrange(0, k as int), k as int);
        assert(segments.subrange(k as int, segments.len() as int) =~= segments.skip(k as int));
    }
    (base, tail)
}

/// Joining goes by the segments that are joined alone.
proof fn lemma_joined_same(start: Seq<char>, a: Seq<Seq<char>>, b: Seq<Seq<char>>, n: int)
    requires
        0 <= n <= a.len(),
        n <= b.len(),
        forall|j: int| 0 <= j < n ==> a[j] == b[j],
    ensures
        joined_onto(start, a, n) == joined_onto(start, b, n),
    decreases n,
{
    if n > 0 {
        lemma_joined_same(start, a, b, n - 1);
    }
}

/// Clusters a list of patterns into groups of a base and patterns. The base of a group is
/// joined from the leading segments of its patterns, none of which has a wildcard character,
/// and it is as long as a pattern allows; the patterns of one base stand in one group.
pub fn cluster_globs(patterns: &[String]) -> (groups: Vec<(String, Vec<String>)>)
    ensures
        groups_view(groups@) == clustered(texts(patterns@)),
{
    let ghost all = texts(patterns@);
    let mut groups: Vec<(String, Vec<String>)> = Vec::new();
    let mut i: usize = 0;
    assert(groups_view(groups@) =~= clustered(all.take(0)));
    while i < patterns.len()
        invariant
            i <= patterns.len(),
            all == texts(patterns@),
            groups_view(groups@) == clustered(all.take(i as int)),
        decreases patterns.len() - i,
    {
        let (base, tail) = split_glob(patterns[i].as_str());
        let ghost before = groups_view(groups@);
        proof {
            assert(all.take(i + 1).drop_last() =~= all.take(i as int));
            assert(all.take(i + 1).last() == patterns@[i as int]@);
        }
        let mut g: usize = 0;
        while g < groups.len() && !same_text(groups[g].0.as_str(), base.as_str())
            invariant
                g <= groups.len(),
                before == groups_view(groups@),
                forall|j: int| 0 <= j < g ==> !(#[trigger] base_at(before, base@)(j)),
            decreases groups.len() - g,
        {
            g += 1;
        }
        proof {
            assert(g < groups.len() ==> base_at(before, base@)(g as int));
            assert(is_first(before.len() as int, base_at(before, base@), g as int));
            lemma_first_is(before.len() as int, base_at(before, base@), g as int);
        }
        if g < groups.len() {
            let ghost tails = texts(groups@[g as int].1@);
            groups[g].1.push(tail);
            assert(texts(groups@[g as int].1@) =~= tails.push(tail@));
            assert(groups_view(groups@) =~= grouped(before, base@, tail@));
        } else {
            let mut tails: Vec<String> = Vec::new();
            tails.push(tail);
            assert(texts(tails@) =~= seq![tail@]);
            groups.push((base, tails));
            assert(groups_view(groups@) =~= grouped(before, base@, tail@));
        }
        i += 1;
    }
    assert(all.take(i as int) =~= all);
    groups
}

} // verus!
