use multiglob::is_glob_like;
use multiglob::util::{chars_of, is_recursive, key_order, same_text, KeyOrder};

#[test]
fn glob_like_segments() {
    for part in ["*", "*.rs", "a?", "[ab]", "foo[bar", "foo{bar", "x}", "x]", "{a,b}", "**"] {
        assert!(is_glob_like(part), "{part}");
    }
    for part in ["", "plain", "a.b", "..", "a b", "a\\b", "é"] {
        assert!(!is_glob_like(part), "{part}");
    }
}

#[test]
fn recursive_segments() {
    for part in ["**", "a**", "**b", "a**b", "***"] {
        assert!(is_recursive(part), "{part}");
    }
    for part in ["", "*", "*a*", "a*b*c", "é*"] {
        assert!(!is_recursive(part), "{part}");
    }
}

#[test]
fn chars_are_code_points() {
    assert_eq!(chars_of("aé*"), vec!['a', 'é', '*']);
    assert!(chars_of("").is_empty());
}

#[test]
fn key_order_cases() {
    assert_eq!(key_order("a", "b"), KeyOrder::Before);
    assert_eq!(key_order("b", "a"), KeyOrder::After);
    assert_eq!(key_order("abc", "abc"), KeyOrder::Same);
    assert_eq!(key_order("", ""), KeyOrder::Same);
    assert_eq!(key_order("", "a"), KeyOrder::Before);
    assert_eq!(key_order("ab", "abc"), KeyOrder::Before);
    assert_eq!(key_order("abc", "ab"), KeyOrder::After);
    assert_eq!(key_order("Z", "a"), KeyOrder::Before);
    assert_eq!(key_order("z", "é"), KeyOrder::Before);
    assert!(same_text("x/y", "x/y"));
    assert!(!same_text("x/y", "x/z"));
}

#[test]
fn key_order_agrees_with_the_order_of_strings() {
    let keys = ["", "a", "ab", "b", "B", "é", "z", "a/b", "a.b", "**", "**/y", "1", "*.doc"];
    for a in keys {
        for b in keys {
            let expected = match a.cmp(b) {
                std::cmp::Ordering::Less => KeyOrder::Before,
                std::cmp::Ordering::Equal => KeyOrder::Same,
                std::cmp::Ordering::Greater => KeyOrder::After,
            };
            assert_eq!(key_order(a, b), expected, "{a:?} {b:?}");
        }
    }
}
