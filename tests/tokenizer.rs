use crk_detect::normalize::{line_to_word, strip_circumflex_char};
use crk_detect::token::{digraphs_of, Digraph, Token};

#[test]
fn empty_word_has_no_bigrams() {
    assert!(digraphs_of("").is_empty());
}

#[test]
fn single_character_word_has_two_bigrams() {
    let ds = digraphs_of("a");
    assert_eq!(
        ds,
        vec![
            Digraph(Token::Start, Token::Char('a')),
            Digraph(Token::Char('a'), Token::End)
        ]
    );
}

#[test]
fn word_without_repeats_has_length_plus_one_bigrams() {
    let ds = digraphs_of("puppy");
    assert_eq!(ds.len(), 6);
    assert_eq!(ds[0], Digraph(Token::Start, Token::Char('p')));
    assert_eq!(ds[3], Digraph(Token::Char('p'), Token::Char('p')));
    assert_eq!(ds[5], Digraph(Token::Char('y'), Token::End));
}

#[test]
fn repeated_bigram_counts_once() {
    // ^a, aa, aa, a$: the inner bigram occurs twice.
    let ds = digraphs_of("aaa");
    assert_eq!(ds.len(), 3);
    assert_eq!(
        ds,
        vec![
            Digraph(Token::Start, Token::Char('a')),
            Digraph(Token::Char('a'), Token::Char('a')),
            Digraph(Token::Char('a'), Token::End)
        ]
    );
}

#[test]
fn bigram_counts_stay_in_range() {
    for w in ["a", "ab", "abab", "acimosis", "nehiyawewin", "zz"] {
        let n = w.chars().count();
        let k = digraphs_of(w).len();
        assert!(2 <= k && k <= n + 1, "{}", w);
    }
    assert_eq!(digraphs_of("abab").len(), 4);
}

#[test]
fn markers_differ_from_literal_caret_and_dollar() {
    let ds = digraphs_of("^$");
    assert_eq!(ds.len(), 3);
    assert_eq!(ds[0], Digraph(Token::Start, Token::Char('^')));
    assert_eq!(ds[2], Digraph(Token::Char('$'), Token::End));
}

#[test]
fn normalize_trims_trailing_punctuation_and_lowercases() {
    assert_eq!(line_to_word("Puppy! "), "puppy");
    assert_eq!(line_to_word("puppy?!\n"), "puppy");
}

#[test]
fn normalize_keeps_leading_junk() {
    assert_eq!(line_to_word(" Puppy! "), " puppy");
    assert_eq!(line_to_word("!a"), "!a");
}

#[test]
fn normalize_strips_circumflexes() {
    assert_eq!(line_to_word("N\u{CA}HIYAW\u{CA}WIN"), "nehiyawewin");
    assert_eq!(line_to_word("\u{e2}\u{ea}\u{ee}\u{f4}\u{fb}"), "aeio\u{fb}");
}

#[test]
fn normalize_of_only_junk_is_empty() {
    assert_eq!(line_to_word("!? \n"), "");
    assert_eq!(line_to_word(""), "");
}

#[test]
fn lowercasing_changes_the_word() {
    assert_eq!(line_to_word("ABC"), "abc");
}

#[test]
fn strip_circumflex_maps_four_vowels() {
    assert_eq!(strip_circumflex_char('\u{e2}'), 'a');
    assert_eq!(strip_circumflex_char('\u{ea}'), 'e');
    assert_eq!(strip_circumflex_char('\u{ee}'), 'i');
    assert_eq!(strip_circumflex_char('\u{f4}'), 'o');
    assert_eq!(strip_circumflex_char('\u{fb}'), '\u{fb}');
    assert_eq!(strip_circumflex_char('x'), 'x');
}

#[test]
fn tokens_render_with_markers() {
    assert_eq!(Token::Start.display_char(), Some('^'));
    assert_eq!(Token::End.display_char(), Some('$'));
    assert_eq!(Token::Char('x').display_char(), Some('x'));
    assert_eq!(Token::Char('^').display_char(), None);
    assert_eq!(Token::Char('$').display_char(), None);
}
