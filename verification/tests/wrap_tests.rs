//! Word wrap behaviour on concrete inputs.

use twitch_chat_tui::wrap::{split_words, wrap_body};

fn wrap_str(body: &str, width: usize) -> Vec<String> {
    let bytes = body.as_bytes().to_vec();
    wrap_body(&bytes, width)
        .into_iter()
        .map(|l| String::from_utf8(l).unwrap())
        .collect()
}

#[test]
fn split_words_drops_spaces() {
    let body = b"  one two   three ".to_vec();
    let ws: Vec<String> = split_words(&body)
        .into_iter()
        .map(|w| String::from_utf8(w).unwrap())
        .collect();
    assert_eq!(ws, vec!["one".to_string(), "two".to_string(), "three".to_string()]);
}

#[test]
fn wrap_packs_words_greedily() {
    assert_eq!(wrap_str("hello world", 5), vec!["hello", "world"]);
    assert_eq!(wrap_str("hello world", 11), vec!["hello world"]);
    assert_eq!(wrap_str("hello world", 10), vec!["hello", "world"]);
    assert_eq!(wrap_str("a b c d", 3), vec!["a b", "c d"]);
}

#[test]
fn wrap_never_splits_a_word_that_fits() {
    assert_eq!(wrap_str("abcdef gh", 7), vec!["abcdef", "gh"]);
}

#[test]
fn wrap_hard_breaks_overlong_words() {
    assert_eq!(wrap_str("abcdefgh", 3), vec!["abc", "def", "gh"]);
    assert_eq!(wrap_str("abcdef gh", 4), vec!["abcd", "ef", "gh"]);
}

#[test]
fn wrap_of_empty_body_has_no_lines() {
    assert_eq!(wrap_str("", 10), Vec::<String>::new());
    assert_eq!(wrap_str("   ", 10), Vec::<String>::new());
}

#[test]
fn wrap_clamps_width_to_one() {
    assert_eq!(wrap_str("ab c", 0), vec!["a", "b", "c"]);
}

#[test]
fn wrap_collapses_repeated_spaces() {
    assert_eq!(wrap_str("a  b", 10), vec!["a b"]);
}

#[test]
fn rewrap_of_each_line_is_stable() {
    let lines = wrap_str("the quick brown fox jumps over the lazy dog", 13);
    for line in &lines {
        assert!(line.len() <= 13);
        assert_eq!(wrap_str(line, 13), vec![line.clone()]);
    }
}
