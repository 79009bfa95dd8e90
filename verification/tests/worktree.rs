use wrt::worktree::{normalize_name, slug, NAME_CAP};

#[test]
fn slug_normalizes_names() {
    assert_eq!(slug("A B C"), "a-b-c");
    assert_eq!(slug("a/gpt/fix-login-timeout"), "a-gpt-fix-login-timeout");
    assert_eq!(slug("  Feature__X  "), "feature-x");
    assert_eq!(slug("ABC123"), "abc123");
    assert_eq!(slug("--a--b--"), "a-b");
}

#[test]
fn slug_of_punctuation_is_empty() {
    assert_eq!(slug(""), "");
    assert_eq!(slug("   "), "");
    assert_eq!(slug("---"), "");
    assert_eq!(slug(" \t?!/.,;:@#$%^&*() \n"), "");
    assert_eq!(slug("éàü"), "");
}

#[test]
fn slug_is_cut_before_it_is_collapsed() {
    assert_eq!(NAME_CAP, 24);
    assert_eq!(slug(&"x".repeat(100)), "x".repeat(24));
    // The cut falls behind the 24th byte; the hyphen it leaves at the end goes.
    assert_eq!(slug("abcdefghijklmnopqrstuvw--xyz"), "abcdefghijklmnopqrstuvw");
    assert_eq!(slug("abcdefghijklmnopqrstuv  wxyz"), "abcdefghijklmnopqrstuv");
    // A character that the cut splits counts as one that is not kept.
    assert_eq!(slug("abcdefghijklmnopqrstuvwéxyz"), "abcdefghijklmnopqrstuvw");
    assert_eq!(slug("abcdefghijklmnopqrstuvéwxyz"), "abcdefghijklmnopqrstuv");
    // Leading white space goes before the cut, leading hyphens after it.
    assert_eq!(slug("   abcdefghijklmnopqrstuvwxyz"), "abcdefghijklmnopqrstuvwx");
    assert_eq!(slug("---abcdefghijklmnopqrstuvwxyz"), "abcdefghijklmnopqrstu");
}

#[test]
fn slug_lowercases_beyond_ascii() {
    // The Kelvin sign lowercases to the letter k.
    assert_eq!(slug("\u{212A}elvin"), "kelvin");
    assert_eq!(slug("ÀB"), "b");
}

#[test]
fn normalize_name_takes_the_cap() {
    assert_eq!(normalize_name("hello world", 5), "hello");
    assert_eq!(normalize_name("hello world", 6), "hello");
    assert_eq!(normalize_name("hello world", 7), "hello-w");
    assert_eq!(normalize_name("hello world", 0), "");
    assert_eq!(normalize_name("hello world", 100), "hello-world");
    // Uppercase letters are not name bytes: lowercasing is the caller's part.
    assert_eq!(normalize_name("aBc", 10), "a-c");
}
