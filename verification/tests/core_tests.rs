use git_anger::words::naughty_word;
use git_anger::words::split_into_clean_words;
use git_anger::words::WordList;

#[test]
fn test_naughty_words() {
    let list = WordList::shipped();
    assert!(naughty_word("fuck", &list));
    assert!(naughty_word("cyberfuckers", &list));
    assert!(naughty_word("shitty", &list));
    assert!(!naughty_word("pretty", &list));
}

#[test]
fn main_test_naughty_words() {
    let list = WordList::shipped();
    assert!(naughty_word("fuck", &list));
    assert!(naughty_word("cyberfuckers", &list));
    assert!(!naughty_word("pretty", &list));
}

#[test]
fn test_clean_word() {
    let words = split_into_clean_words("This! is a string: with, some. words in? it;");
    assert_eq!(
        vec!["This", "is", "a", "string", "with", "some", "words", "in", "it"],
        words
    );
}

#[test]
fn main_test_clean_word() {
    let words = split_into_clean_words("This! is a string: with, some. words in? it;");
    assert_eq!(
        vec!["This", "is", "a", "string", "with", "some", "words", "in", "it"],
        words
    );
}

#[test]
fn test_interrupted_run_not_rejoined() {
    let words = split_into_clean_words("inv!alid");
    assert_eq!(vec!["inv", "alid"], words);
}

#[test]
fn test_split_edge_cases() {
    assert!(split_into_clean_words("").is_empty());
    assert!(split_into_clean_words("123 456 !?;").is_empty());
    assert_eq!(vec!["a"], split_into_clean_words("a"));
    assert_eq!(vec!["a", "b"], split_into_clean_words("--a--b--"));
}

#[test]
fn test_exact_match_only() {
    let list = WordList::shipped();
    // A token merely containing a flagged word as a substring is no match.
    assert!(naughty_word("ass", &list));
    assert!(!naughty_word("assistant", &list));
    assert!(!naughty_word("classic", &list));
}

#[test]
fn test_custom_word_list() {
    let list = WordList::from_words(vec!["tabs".to_string(), "rebase".to_string()]);
    assert!(naughty_word("tabs", &list));
    assert!(naughty_word("rebase", &list));
    assert!(!naughty_word("fuck", &list));
}
