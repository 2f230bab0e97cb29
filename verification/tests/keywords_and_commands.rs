use minx::command::first_word;
use minx::keywords::Keywords;
use minx::{terms_to_command, terms_to_keywords, Command};

fn words(k: &Keywords) -> Vec<String> {
    (0..k.len()).map(|i| k.get(i).clone()).collect()
}

fn keywords_of(list: &[&str]) -> Keywords {
    let mut k = Keywords::new();
    for w in list {
        k.insert(w.to_string());
    }
    k
}

#[test]
fn keywords_are_lowercase_distinct_and_sorted() {
    let k = terms_to_keywords("Hello, World! hello zeta ALPHA");
    assert_eq!(words(&k), vec!["alpha", "hello", "world", "zeta"]);
}

#[test]
fn keywords_split_on_every_non_alphanumeric_character() {
    let k = terms_to_keywords("abc123-x9_y  z.q");
    assert_eq!(words(&k), vec!["abc123", "q", "x9", "y", "z"]);
}

#[test]
fn keywords_of_empty_or_punctuation_only_terms() {
    assert_eq!(terms_to_keywords("").len(), 0);
    assert_eq!(terms_to_keywords("  -- !! ..").len(), 0);
}

#[test]
fn keywords_lowercase_beyond_ascii() {
    let k = terms_to_keywords("Éclair ÜBER straße");
    assert_eq!(words(&k), vec!["straße", "éclair", "über"]);
}

#[test]
fn keywords_do_not_depend_on_word_order() {
    assert_eq!(
        words(&terms_to_keywords("b a c")),
        words(&terms_to_keywords("c b a"))
    );
}

#[test]
fn keywords_insert_keeps_order_and_drops_repeats() {
    let mut k = Keywords::new();
    k.insert("m".to_string());
    k.insert("a".to_string());
    k.insert("z".to_string());
    k.insert("a".to_string());
    k.insert("ab".to_string());
    assert_eq!(words(&k), vec!["a", "ab", "m", "z"]);
    assert!(k.contains(&"ab".to_string()));
    assert!(!k.contains(&"b".to_string()));
}

#[test]
fn first_word_skips_leading_white_space() {
    assert_eq!(first_word("  foo bar"), "foo");
    assert_eq!(first_word("\tx"), "x");
    assert_eq!(first_word("   "), "");
    assert_eq!(first_word("solo"), "solo");
}

#[test]
fn command_without_keywords_is_noop() {
    assert!(matches!(terms_to_command(""), Command::NoOp));
    assert!(matches!(terms_to_command(" ;; "), Command::NoOp));
}

#[test]
fn command_for_plain_terms_is_search() {
    match terms_to_command("Rust book") {
        Command::Search(k) => assert_eq!(words(&k), vec!["book", "rust"]),
        other => panic!("unexpected {:?}", other),
    }
}

#[test]
fn command_with_leading_url_is_alter() {
    match terms_to_command("https://Example.com rust docs") {
        Command::Alter(locator, k) => {
            assert_eq!(locator, "https://example.com/");
            assert_eq!(words(&k), vec!["com", "docs", "example", "https", "rust"]);
        }
        other => panic!("unexpected {:?}", other),
    }
}

#[test]
fn command_with_url_after_leading_space_is_alter() {
    match terms_to_command("   mailto:me@example.org  mail") {
        Command::Alter(locator, _) => assert_eq!(locator, "mailto:me@example.org"),
        other => panic!("unexpected {:?}", other),
    }
}

#[test]
fn command_with_relative_first_word_is_search() {
    assert!(matches!(
        terms_to_command("not-a-url words"),
        Command::Search(_)
    ));
}

#[test]
fn command_from_parts_ignores_url_without_keywords() {
    let c = minx::command::command_from_parts(Keywords::new(), Some("https://a.b/".to_string()));
    assert!(matches!(c, Command::NoOp));
    let c = minx::command::command_from_parts(keywords_of(&["x"]), Some("https://a.b/".to_string()));
    assert!(matches!(c, Command::Alter(ref l, _) if l == "https://a.b/"));
    let c = minx::command::command_from_parts(keywords_of(&["x"]), None);
    assert!(matches!(c, Command::Search(_)));
}

#[test]
fn keywords_typed_again_give_the_same_keywords() {
    let first = terms_to_keywords("Rust, BOOK; rust 2nd-edition");
    let again = terms_to_keywords(&words(&first).join(" "));
    assert_eq!(words(&again), words(&first));
    assert_eq!(words(&first), vec!["2nd", "book", "edition", "rust"]);
}

#[test]
fn keywords_of_terms_joined_at_a_separator_are_the_union() {
    let a = "Rust book";
    let b = "book Tokio";
    let joined = terms_to_keywords(&format!("{a}/{b}"));
    assert_eq!(words(&joined), vec!["book", "rust", "tokio"]);
}

#[test]
fn ascii_case_does_not_change_keywords() {
    let t = "Hello World, rust-2024";
    assert_eq!(
        words(&terms_to_keywords(&t.to_ascii_uppercase())),
        words(&terms_to_keywords(t))
    );
    assert!(words(&terms_to_keywords(t)).iter().all(|k| *k == k.to_ascii_lowercase()));
}

#[test]
fn keywords_are_never_empty() {
    let k = terms_to_keywords("Σ ΣΑΣ ǅ İ");
    assert!(k.len() > 0);
    for i in 0..k.len() {
        assert!(!k.get(i).is_empty());
    }
}
