use lending::text::{chars_of, contains, contains_chars, matches_at, same_text};

fn cs(s: &str) -> Vec<char> {
    s.chars().collect()
}

#[test]
fn same_text_compares_all_characters() {
    assert!(same_text(&"abc".to_string(), &"abc".to_string()));
    assert!(!same_text(&"abc".to_string(), &"abd".to_string()));
    assert!(!same_text(&"abc".to_string(), &"ab".to_string()));
    assert!(same_text(&String::new(), &String::new()));
}

#[test]
fn chars_of_gives_the_characters_in_order() {
    assert_eq!(chars_of("Rust"), vec!['R', 'u', 's', 't']);
    assert_eq!(chars_of(""), Vec::<char>::new());
    assert_eq!(chars_of("né€"), vec!['n', 'é', '€']);
}

#[test]
fn matches_at_checks_one_position() {
    assert!(matches_at(&cs("The Rust Book"), &cs("Rust"), 4));
    assert!(!matches_at(&cs("The Rust Book"), &cs("Rust"), 3));
    assert!(matches_at(&cs("abc"), &cs(""), 3));
    assert!(matches_at(&cs("abc"), &cs("abc"), 0));
}

#[test]
fn contains_finds_a_run_anywhere() {
    assert!(contains("The Rust Book", "Rust"));
    assert!(contains("The Rust Book", "The"));
    assert!(contains("The Rust Book", "Book"));
    assert!(contains("The Rust Book", "The Rust Book"));
    assert!(contains("The Rust Book", ""));
    assert!(contains("", ""));
    assert!(!contains("The Rust Book", "rust"));
    assert!(!contains("The Rust Book", "Rusty"));
    assert!(!contains("", "a"));
    assert!(!contains("ab", "abc"));
    assert!(contains("aaab", "aab"));
    assert!(!contains("abab", "aba b"));
}

#[test]
fn contains_works_on_characters_not_bytes() {
    assert!(contains("Les Misérables", "éra"));
    assert!(contains("日本語の本", "の本"));
    assert!(!contains("日本語の本", "本の"));
}

#[test]
fn contains_agrees_with_std_on_samples() {
    let hays = ["", "a", "ab", "aba", "abcabc", "Rust Book 1", "ééé"];
    let needles = ["", "a", "b", "ab", "ba", "bc", "cab", "Rust", "é", "éé", "x"];
    for h in hays {
        for n in needles {
            assert_eq!(contains(h, n), h.contains(n), "{:?} in {:?}", n, h);
            assert_eq!(contains_chars(&cs(h), &cs(n)), h.contains(n));
        }
    }
}
