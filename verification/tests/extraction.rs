use nazrin::code::{decode, encode};
use nazrin::config::{contains_word, ExtractConfig};
use nazrin::rank::{rank_terms, select, term_precedes};
use nazrin::tfidf::TfIdf;

fn code(x: f64) -> u64 {
    encode(x.to_bits())
}

fn value(c: u64) -> f64 {
    f64::from_bits(decode(c))
}

fn parse(field: &String) -> Option<u64> {
    field.parse::<f64>().ok().map(code)
}

fn score(count: u64, weight: u64, total: u64) -> u64 {
    code(count as f64 * value(weight) / total as f64)
}

fn entries(list: &[(&str, f64)]) -> Vec<(String, u64)> {
    list.iter().map(|(w, x)| (w.to_string(), code(*x))).collect()
}

fn tokens(list: &[(&str, &str)]) -> Vec<(String, String)> {
    list.iter().map(|(w, t)| (w.to_string(), t.to_string())).collect()
}

fn words(list: &[&str]) -> Vec<String> {
    list.iter().map(|w| w.to_string()).collect()
}

fn scored(list: &[(&str, u64)]) -> Vec<(String, u64)> {
    list.iter().map(|(w, s)| (w.to_string(), *s)).collect()
}

fn values(list: Vec<(String, u64)>) -> Vec<(String, f64)> {
    list.into_iter().map(|(w, s)| (w, value(s))).collect()
}

fn fruit() -> TfIdf {
    TfIdf::from_entries(&entries(&[("apple", 2.0), ("banana", 4.0)]), ExtractConfig::default()).unwrap()
}

#[test]
fn select_gives_the_best_in_order() {
    let list = scored(&[("d", 1), ("a", 5), ("c", 3), ("b", 5), ("e", 0)]);
    assert_eq!(select(&list, 3), scored(&[("a", 5), ("b", 5), ("c", 3)]));
    assert_eq!(select(&list, 1), scored(&[("a", 5)]));
    assert_eq!(select(&list, 5), scored(&[("a", 5), ("b", 5), ("c", 3), ("d", 1), ("e", 0)]));
    assert_eq!(select(&list, 9), scored(&[("a", 5), ("b", 5), ("c", 3), ("d", 1), ("e", 0)]));
}

#[test]
fn select_with_zero_gives_all_in_order() {
    let list = scored(&[("d", 1), ("a", 5), ("c", 3), ("b", 5), ("e", 0)]);
    assert_eq!(select(&list, 0), scored(&[("a", 5), ("b", 5), ("c", 3), ("d", 1), ("e", 0)]));
    assert_eq!(select(&Vec::new(), 0), Vec::new());
    assert_eq!(select(&Vec::new(), 4), Vec::new());
}

#[test]
fn select_does_not_depend_on_the_order_it_is_given() {
    let a = scored(&[("x", 2), ("y", 2), ("z", 7), ("w", 1)]);
    let b = scored(&[("w", 1), ("z", 7), ("y", 2), ("x", 2)]);
    for k in 0..6 {
        assert_eq!(select(&a, k), select(&b, k));
        let n = select(&a, k).len();
        assert_eq!(n, if k == 0 || k > 4 { 4 } else { k });
    }
}

#[test]
fn equal_scores_go_by_the_word() {
    let list = scored(&[("b", 1), ("ab", 1), ("a", 1), ("", 1), ("B", 1), ("é", 1), ("z", 1), ("中", 1), ("aa", 1)]);
    assert_eq!(
        rank_terms(&list),
        scored(&[("", 1), ("B", 1), ("a", 1), ("aa", 1), ("ab", 1), ("b", 1), ("z", 1), ("é", 1), ("中", 1)])
    );
}

#[test]
fn term_precedes_compares_score_then_word() {
    let t = |w: &str, s: u64| (w.to_string(), s);
    assert!(term_precedes(&t("b", 2), &t("a", 1)));
    assert!(!term_precedes(&t("a", 1), &t("b", 2)));
    assert!(term_precedes(&t("a", 1), &t("b", 1)));
    assert!(!term_precedes(&t("b", 1), &t("a", 1)));
    assert!(term_precedes(&t("a", 1), &t("a", 1)));
    assert!(term_precedes(&t("a", 1), &t("ab", 1)));
    assert!(!term_precedes(&t("ab", 1), &t("a", 1)));
}

#[test]
fn ranking_many_terms() {
    let list: Vec<(String, u64)> = (0..500u64).map(|i| (format!("w{}", (i * 37) % 500), (i * 11) % 17)).collect();
    let mut expected = list.clone();
    expected.sort_by(|a, b| b.1.cmp(&a.1).then_with(|| a.0.cmp(&b.0)));
    assert_eq!(rank_terms(&list), expected);
    expected.truncate(20);
    assert_eq!(select(&list, 20), expected);
}

#[test]
fn a_word_that_the_dictionary_lacks_scores_with_the_median() {
    let t = TfIdf::from_entries(&entries(&[("a", 1.0), ("b", 2.5), ("c", 9.0)]), ExtractConfig::new(1, Vec::new(), true))
        .unwrap();
    assert_eq!(t.lookup("x"), None);
    assert_eq!(value(t.median_idf()), 2.5);
    let r = t.extract_from_tags(&tokens(&[("x", "n")]), 5, &Vec::new(), score);
    assert_eq!(values(r), vec![("x".to_string(), 2.5)]);
}

#[test]
fn accepts_rejects_short_words_and_stop_words() {
    let c = ExtractConfig::default();
    assert!(!c.accepts(""));
    assert!(!c.accepts("a"));
    assert!(!c.accepts("中"));
    assert!(c.accepts("中文"));
    assert!(c.accepts("ab"));
    assert!(!c.accepts("the"));
    assert!(!c.accepts("The"));
    assert!(!c.accepts("THE"));
    assert!(!c.accepts("tHe"));
    assert!(c.accepts("them"));
    assert!(c.accepts("apple"));
    let d = ExtractConfig::new(3, words(&["apple", "Pear"]), false);
    assert!(!d.accepts("ab"));
    assert!(d.accepts("abc"));
    assert!(!d.accepts("Apple"));
    assert!(!d.accepts("APPLE"));
    assert!(d.accepts("the"));
    assert!(d.accepts("pear"));
    assert!(d.accepts("Pear"));
    assert!(d.accepts("éé\u{301}"));
    assert!(!d.accepts("éé"));
    let t = TfIdf::from_entries(&entries(&[("a", 1.0)]), ExtractConfig::default()).unwrap();
    assert!(!t.filter_word("The"));
    assert!(!t.filter_word("x"));
    assert!(t.filter_word("apple"));
}

#[test]
fn the_default_options() {
    let c = ExtractConfig::default();
    assert_eq!(c.min_keyword_length(), 2);
    assert!(c.use_hmm());
    assert_eq!(
        c.stop_words(),
        &words(&[
            "all", "an", "and", "are", "as", "at", "be", "by", "can", "for", "from", "has", "have", "if", "in", "is",
            "it", "not", "of", "on", "one", "or", "that", "the", "then", "this", "to", "we", "which", "with", "you",
        ])
    );
    let d = ExtractConfig::new(7, words(&["x"]), false);
    assert_eq!(d.min_keyword_length(), 7);
    assert!(!d.use_hmm());
    assert_eq!(d.stop_words(), &words(&["x"]));
}

#[test]
fn contains_word_finds_only_whole_words() {
    let list = words(&["n", "vn", ""]);
    assert!(contains_word(&list, &"n".to_string()));
    assert!(contains_word(&list, &"vn".to_string()));
    assert!(contains_word(&list, &"".to_string()));
    assert!(!contains_word(&list, &"v".to_string()));
    assert!(!contains_word(&list, &"N".to_string()));
    assert!(!contains_word(&Vec::new(), &"n".to_string()));
}

#[test]
fn aggregate_counts_the_words_that_pass() {
    let t = fruit();
    let toks = tokens(&[
        ("apple", "n"),
        ("the", "x"),
        ("Apple", "n"),
        ("apple", "v"),
        ("a", "n"),
        ("banana", "n"),
        ("apple", "n"),
    ]);
    let (mut counts, total) = t.aggregate(&toks, &Vec::new());
    counts.sort();
    assert_eq!(counts, scored(&[("Apple", 1), ("apple", 3), ("banana", 1)]));
    assert_eq!(total, 5);
    let (mut counts, total) = t.aggregate(&toks, &words(&["n"]));
    counts.sort();
    assert_eq!(counts, scored(&[("Apple", 1), ("apple", 2), ("banana", 1)]));
    assert_eq!(total, 4);
    let (counts, total) = t.aggregate(&toks, &words(&["q"]));
    assert_eq!(counts, Vec::new());
    assert_eq!(total, 0);
}

#[test]
fn allowed_tags_restrict_the_result() {
    let t = fruit();
    let toks = tokens(&[("apple", "n"), ("banana", "v"), ("cherry", "a"), ("apple", "v")]);
    let all = t.extract_from_tags(&toks, 0, &Vec::new(), score);
    assert_eq!(
        values(all),
        vec![("apple".to_string(), 1.0), ("banana".to_string(), 1.0), ("cherry".to_string(), 0.5)]
    );
    let nouns = t.extract_from_tags(&toks, 0, &words(&["n"]), score);
    assert_eq!(values(nouns), vec![("apple".to_string(), 2.0)]);
    let verbs = t.extract_from_tags(&toks, 0, &words(&["v", "zz"]), score);
    assert_eq!(values(verbs), vec![("banana".to_string(), 2.0), ("apple".to_string(), 1.0)]);
    let none = t.extract_from_tags(&toks, 0, &words(&["N"]), score);
    assert_eq!(none, Vec::new());
}

#[test]
fn apple_and_banana_tie_and_go_by_the_word() {
    let t = fruit();
    let toks = tokens(&[("apple", "n"), ("apple", "n"), ("banana", "n")]);
    let r = values(t.extract_from_tags(&toks, 2, &Vec::new(), score));
    assert_eq!(r.len(), 2);
    assert_eq!(r[0].0, "apple");
    assert_eq!(r[1].0, "banana");
    assert_eq!(r[0].1, 2.0 * 2.0 / 3.0);
    assert_eq!(r[1].1, 1.0 * 4.0 / 3.0);
    assert_eq!(r[0].1, r[1].1);
    assert!((r[0].1 - 1.3333).abs() < 1e-4);
    let one = values(t.extract_from_tags(&toks, 1, &Vec::new(), score));
    assert_eq!(one, vec![("apple".to_string(), 4.0 / 3.0)]);
}

#[test]
fn no_tagged_words_give_no_keywords() {
    let t = fruit();
    assert_eq!(t.extract_from_tags(&Vec::new(), 0, &Vec::new(), score), Vec::new());
    assert_eq!(t.extract_from_tags(&Vec::new(), 3, &Vec::new(), score), Vec::new());
    assert_eq!(t.extract_from_tags(&Vec::new(), 3, &words(&["n"]), score), Vec::new());
    let filtered = tokens(&[("a", "n"), ("the", "n"), ("of", "n")]);
    assert_eq!(t.extract_from_tags(&filtered, 3, &Vec::new(), score), Vec::new());
}

#[test]
fn extraction_is_bounded_and_sorted() {
    let t = TfIdf::new("aa 1.0\nbb 2.0\ncc 3.0\ndd 4.0\nee 5.0\n", ExtractConfig::default(), parse).unwrap();
    let toks = tokens(&[
        ("aa", "n"),
        ("bb", "n"),
        ("cc", "n"),
        ("dd", "n"),
        ("ee", "n"),
        ("ff", "n"),
        ("aa", "n"),
        ("aa", "n"),
        ("aa", "n"),
        ("aa", "n"),
        ("aa", "n"),
    ]);
    let all = values(t.extract_from_tags(&toks, 0, &Vec::new(), score));
    assert_eq!(
        all,
        vec![
            ("aa".to_string(), 6.0 * 1.0 / 11.0),
            ("ee".to_string(), 5.0 / 11.0),
            ("dd".to_string(), 4.0 / 11.0),
            ("cc".to_string(), 3.0 / 11.0),
            ("ff".to_string(), 3.0 / 11.0),
            ("bb".to_string(), 2.0 / 11.0),
        ]
    );
    for k in 1..9 {
        let r = values(t.extract_from_tags(&toks, k, &Vec::new(), score));
        assert_eq!(r.len(), k.min(6));
        assert_eq!(r[..], all[..r.len()]);
    }
}
