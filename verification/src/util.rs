//! Tests on path segments, and the order of keys.

use vstd::prelude::*;

verus! {

/// Whether `c` is one of the characters that mark a path segment as a wildcard.
pub open spec fn is_wildcard_char(c: char) -> bool {
    c == '*' || c == '{' || c == '}' || c == '?' || c == '[' || c == ']'
}

/// A segment looks like a glob when it holds at least one wildcard character.
///
/// The test is deliberately generous: a segment such as `foo[bar` counts as a glob although it
/// is not a valid one. A segment without any of these characters is certainly literal.
pub open spec fn glob_like(part: Seq<char>) -> bool {
    exists|i: int| 0 <= i < part.len() && is_wildcard_char(#[trigger] part[i])
}

/// A segment unlocks recursion when two stars stand side by side in it.
pub open spec fn has_double_star(part: Seq<char>) -> bool {
    exists|i: int| 0 <= i && i + 1 < part.len() && #[trigger] part[i] == '*' && part[i + 1] == '*'
}

/// The characters of `s`, in order.
pub fn chars_of(s: &str) -> (v: Vec<char>)
    ensures
        v@ == s@,
{
    let mut v: Vec<char> = Vec::new();
    for c in it: s.chars()
        invariant
            it.seq() == s@,
            v@ == it.seq().take(it.index() as int),
    {
        v.push(c);
    }
    assert(v@ =~= s@);
    v
}

/// Check if a component of a path looks like it may be a glob pattern.
pub fn is_glob_like(part: &str) -> (r: bool)
    ensures
        r == glob_like(part@),
{
    let chars = chars_of(part);
    let mut i: usize = 0;
    while i < chars.len()
        invariant
            i <= chars.len(),
            chars@ == part@,
            forall|j: int| 0 <= j < i ==> !is_wildcard_char(#[trigger] part@[j]),
        decreases chars.len() - i,
    {
        let c = chars[i];
        if c == '*' || c == '{' || c == '}' || c == '?' || c == '[' || c == ']' {
            return true;
        }
        i += 1;
    }
    false
}

/// Check if a component of a path holds the recursive wildcard `**`.
pub fn is_recursive(part: &str) -> (r: bool)
    ensures
        r == has_double_star(part@),
{
    let chars = chars_of(part);
    let mut i: usize = 1;
    while i < chars.len()
        invariant
            1 <= i,
            chars@ == part@,
            forall|j: int| 0 <= j && j + 1 < i ==> !(#[trigger] part@[j] == '*' && part@[j + 1] == '*'),
        decreases chars.len() - i,
    {
        if chars[i - 1] == '*' && chars[i] == '*' {
            return true;
        }
        i += 1;
    }
    false
}

/// A segment with the recursive wildcard is also glob-like.
pub proof fn lemma_double_star_is_glob_like(part: Seq<char>)
    requires
        has_double_star(part),
    ensures
        glob_like(part),
{
    let i = choose|i: int| 0 <= i && i + 1 < part.len() && #[trigger] part[i] == '*' && part[i + 1] == '*';
    assert(is_wildcard_char(part[i]));
}

/// How one key stands to another in the order of keys.
#[derive(Clone, Copy, Debug, PartialEq, Eq, Structural)]
pub enum KeyOrder {
    Before,
    Same,
    After,
}

/// The order of keys: `a` comes before `b` when `a` is a proper prefix of `b`, or when the
/// first character in which they differ is the smaller one in `a`. Strings are ordered in this
/// way by their bytes too, since their encoding keeps the order of characters.
pub open spec fn text_lt(a: Seq<char>, b: Seq<char>) -> bool {
    exists|k: int| #[trigger] differ_at(a, b, k)
}

/// `a` and `b` agree before position `k`, and at `k` the text `a` ends or holds the smaller
/// character.
pub open spec fn differ_at(a: Seq<char>, b: Seq<char>, k: int) -> bool {
    &&& 0 <= k <= a.len()
    &&& k < b.len()
    &&& forall|j: int| 0 <= j < k ==> a[j] == b[j]
    &&& (k < a.len() ==> a[k] < b[k])
}

/// The order of keys is transitive.
pub proof fn lemma_text_lt_transitive(a: Seq<char>, b: Seq<char>, c: Seq<char>)
    requires
        text_lt(a, b),
        text_lt(b, c),
    ensures
        text_lt(a, c),
{
    let k1 = choose|k: int| #[trigger] differ_at(a, b, k);
    let k2 = choose|k: int| #[trigger] differ_at(b, c, k);
    let k = if k1 <= k2 { k1 } else { k2 };
    assert(differ_at(a, c, k));
}

/// No key comes before itself.
pub proof fn lemma_text_lt_irreflexive(a: Seq<char>)
    ensures
        !text_lt(a, a),
{
    if text_lt(a, a) {
        let k = choose|k: int| #[trigger] differ_at(a, a, k);
        assert(false);
    }
}

/// Of two different keys one comes before the other.
pub proof fn lemma_text_lt_total(a: Seq<char>, b: Seq<char>)
    ensures
        a == b || text_lt(a, b) || text_lt(b, a),
    decreases a.len(),
{
    if a =~= b {
    } else if a.len() == 0 {
        assert(differ_at(a, b, 0));
    } else if b.len() == 0 {
        assert(differ_at(b, a, 0));
    } else if a[0] != b[0] {
        if a[0] < b[0] {
            assert(differ_at(a, b, 0));
        } else {
            assert(differ_at(b, a, 0));
        }
    } else {
        let ta = a.drop_first();
        let tb = b.drop_first();
        lemma_text_lt_total(ta, tb);
        if ta == tb {
            assert forall|j: int| 0 <= j < a.len() implies a[j] == b[j] by {
                if j > 0 {
                    assert(ta[j - 1] == tb[j - 1]);
                }
            }
            assert(a.len() == ta.len() + 1 && b.len() == tb.len() + 1);
            assert(a =~= b);
        } else if text_lt(ta, tb) {
            let k = choose|k: int| #[trigger] differ_at(ta, tb, k);
            assert forall|j: int| 0 <= j < k + 1 implies a[j] == b[j] by {
                if j > 0 {
                    assert(ta[j - 1] == tb[j - 1]);
                }
            }
            assert(k < ta.len() ==> ta[k] == a[k + 1] && tb[k] == b[k + 1]);
            assert(differ_at(a, b, k + 1));
        } else {
            let k = choose|k: int| #[trigger] differ_at(tb, ta, k);
            assert forall|j: int| 0 <= j < k + 1 implies b[j] == a[j] by {
                if j > 0 {
                    assert(tb[j - 1] == ta[j - 1]);
                }
            }
            assert(k < tb.len() ==> tb[k] == b[k + 1] && ta[k] == a[k + 1]);
            assert(differ_at(b, a, k + 1));
        }
    }
}

/// Where `a` stands to `b` in the order of keys.
pub fn key_order(a: &str, b: &str) -> (r: KeyOrder)
    ensures
        r == KeyOrder::Before <==> text_lt(a@, b@),
        r == KeyOrder::Same <==> a@ == b@,
        r == KeyOrder::After <==> text_lt(b@, a@),
{
    let x = chars_of(a);
    let y = chars_of(b);
    let mut i: usize = 0;
    while i < x.len() && i < y.len() && x[i] == y[i]
        invariant
            i <= x.len(),
            i <= y.len(),
            forall|j: int| 0 <= j < i ==> x@[j] == y@[j],
        decreases x.len() - i,
    {
        i += 1;
    }
    proof {
        lemma_text_lt_irreflexive(a@);
        if text_lt(a@, b@) && text_lt(b@, a@) {
            lemma_text_lt_transitive(a@, b@, a@);
        }
    }
    if i == x.len() && i == y.len() {
        assert(a@ =~= b@);
        KeyOrder::Same
    } else if i == x.len() {
        assert(differ_at(a@, b@, i as int));
        KeyOrder::Before
    } else if i == y.len() {
        assert(differ_at(b@, a@, i as int));
        KeyOrder::After
    } else if x[i] < y[i] {
        assert(differ_at(a@, b@, i as int));
        KeyOrder::Before
    } else {
        assert(differ_at(b@, a@, i as int));
        KeyOrder::After
    }
}

/// Whether two strings hold the same text.
pub fn same_text(a: &str, b: &str) -> (r: bool)
    ensures
        r == (a@ == b@),
{
    match key_order(a, b) {
        KeyOrder::Same => true,
        _ => false,
    }
}

} // verus!
