use crk_detect::bignat::{greater, mul_small};
use crk_detect::model::{Classifier, Language, Occurance};
use crk_detect::token::{Digraph, Token};

fn lines(ws: &[&str]) -> Vec<String> {
    ws.iter().map(|w| w.to_string()).collect()
}

fn model(crk: &[&str], eng: &[&str]) -> Classifier {
    let mut m = Classifier::new();
    m.count_digraphs_in_lines(&lines(crk), Language::Crk);
    m.count_digraphs_in_lines(&lines(eng), Language::Eng);
    m.prune_features();
    m
}

fn start(c: char) -> Digraph {
    Digraph(Token::Start, Token::Char(c))
}

#[test]
fn new_model_is_empty() {
    let m = Classifier::new();
    assert_eq!(m.num_features(), 0);
    assert_eq!(m.words_trained(), 0);
}

#[test]
fn training_counts_words_per_bigram() {
    let mut m = Classifier::new();
    m.count_digraphs_in_lines(&lines(&["aaa!", "ab"]), Language::Crk);
    assert_eq!(m.words_trained(), 2);
    assert_eq!(m.occurance(start('a')), Some(Occurance { crk: 2, eng: 0 }));
    let aa = Digraph(Token::Char('a'), Token::Char('a'));
    assert_eq!(m.occurance(aa), Some(Occurance { crk: 1, eng: 0 }));
    // ^a aa a$ ab b$
    assert_eq!(m.num_features(), 5);
}

#[test]
fn single_sighting_is_pruned() {
    let m = model(&["ab"], &["cd"]);
    assert_eq!(m.occurance(start('a')), None);
    assert_eq!(m.occurance(start('c')), None);
    assert_eq!(m.num_features(), 0);
}

#[test]
fn repeated_sighting_survives_pruning() {
    let m = model(&["ab", "ax"], &["ab"]);
    let o = m.occurance(start('a')).unwrap();
    assert_eq!(o, Occurance { crk: 2, eng: 1 });
    assert_eq!(o.total(), 3);
    let ab = Digraph(Token::Char('a'), Token::Char('b'));
    assert_eq!(m.occurance(ab).unwrap().total(), 2);
    assert_eq!(m.occurance(Digraph(Token::Char('a'), Token::Char('x'))), None);
    // ^a ab b$
    assert_eq!(m.num_features(), 3);
}

#[test]
fn prune_twice_changes_nothing() {
    let mut m = model(&["ab", "ax"], &["ab"]);
    m.prune_features();
    assert_eq!(m.num_features(), 3);
}

#[test]
fn occurance_reports_each_language() {
    let o = Occurance { crk: 4, eng: 7 };
    assert_eq!(o.of(Language::Crk), 4);
    assert_eq!(o.of(Language::Eng), 7);
    assert_eq!(o.total(), 11);
}

#[test]
fn prob_ratio_is_smoothed_over_feature_count() {
    let m = model(&["ab", "ab"], &["ab"]);
    assert_eq!(m.num_features(), 3);
    assert_eq!(m.prob_ratio(start('a'), Language::Crk), Some((3, 6)));
    assert_eq!(m.prob_ratio(start('a'), Language::Eng), Some((2, 6)));
    assert_eq!(m.prob_ratio(start('z'), Language::Eng), None);
    let (n, d) = m.prob_ratio(start('a'), Language::Eng).unwrap();
    let lp = (n as f64).ln() - (d as f64).ln();
    assert!(lp.is_finite() && lp < 0.0);
}

#[test]
fn classify_is_repeatable() {
    let m1 = model(&["acimosis", "atim"], &["puppy", "pat"]);
    let m2 = model(&["acimosis", "atim"], &["puppy", "pat"]);
    for w in ["atimak", "happy", "", "cat"] {
        assert_eq!(m1.classify(w), m1.classify(w));
        assert_eq!(m1.classify(w), m2.classify(w));
    }
}

#[test]
fn no_surviving_evidence_gives_english() {
    let m = model(&["acimosis"], &["puppy"]);
    assert_eq!(m.num_features(), 0);
    assert_eq!(m.classify("puppy"), Language::Eng);
    assert_eq!(m.classify("acimosis"), Language::Eng);
}

#[test]
fn equal_scores_give_english() {
    let m = model(&["ab", "ab"], &["ab", "ab"]);
    assert_eq!(m.classify("ab"), Language::Eng);
}

#[test]
fn stronger_evidence_decides() {
    let m = model(&["ab", "ab", "ab"], &["ab"]);
    assert_eq!(m.classify("ab"), Language::Crk);
    let m = model(&["ab"], &["ab", "ab", "ab"]);
    assert_eq!(m.classify("ab"), Language::Eng);
}

#[test]
fn unknown_bigrams_are_skipped() {
    // Only ^a and a$ are known; both favour Cree.
    let m = model(&["a", "a", "a"], &["xa"]);
    assert_eq!(m.classify("a"), Language::Crk);
    assert_eq!(m.classify("aqqqqq"), Language::Crk);
    assert_eq!(m.classify("zzz"), Language::Eng);
}

#[test]
fn big_products_compare_exactly() {
    let one = vec![1u32];
    let p = mul_small(&one, 1u64 << 32);
    assert_eq!(p, vec![0, 1]);
    let q = mul_small(&p, 3);
    assert_eq!(q, vec![0, 3, 0]);
    let r = mul_small(&vec![0xffff_ffffu32], 0xffff_ffff);
    assert_eq!(r, vec![1, 0xffff_fffe]);
    assert!(greater(&vec![0, 2], &vec![5, 1]));
    assert!(!greater(&vec![5, 1], &vec![0, 2]));
    assert!(!greater(&vec![5, 1], &vec![5, 1]));
}
