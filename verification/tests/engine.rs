use jieba_rs::Jieba;
use nazrin::code::{decode, encode};
use nazrin::config::ExtractConfig;
use nazrin::tfidf::TfIdf;

fn code(x: f64) -> u64 {
    encode(x.to_bits())
}

fn value(c: u64) -> f64 {
    f64::from_bits(decode(c))
}

fn parse(field: &String) -> Option<u64> {
    field.parse::<f64>().ok().map(code)
}

fn score(count: u64, weight: u64, total: u64) -> u64 {
    code(count as f64 * value(weight) / total as f64)
}

fn small_engine() -> Jieba {
    let mut dict = "生化学 10 n\n光化学 10 n\n不是 10 c\n的 10 uj\n".as_bytes();
    Jieba::with_dict(&mut dict).unwrap()
}

#[test]
fn keywords_of_a_sentence() {
    let jieba = small_engine();
    let stop: Vec<String> = ExtractConfig::default().stop_words().clone();
    let t = TfIdf::new("生化学 13.900677652\n", ExtractConfig::new(2, stop, false), parse).unwrap();
    let r: Vec<(String, f64)> = t
        .extract_keywords(&jieba, "生化学不是光化学的,", 3, Vec::new(), score)
        .into_iter()
        .map(|(w, s)| (w, value(s)))
        .collect();
    assert_eq!(
        r,
        vec![
            ("不是".to_string(), 4.6335592173333335),
            ("光化学".to_string(), 4.6335592173333335),
            ("生化学".to_string(), 4.6335592173333335),
        ]
    );
}

#[test]
fn keywords_of_a_sentence_with_allowed_tags() {
    let jieba = small_engine();
    let t = TfIdf::new("生化学 13.900677652\n光化学 99.123456789\n", ExtractConfig::default(), parse).unwrap();
    let r: Vec<(String, f64)> = t
        .extract_keywords(&jieba, "生化学不是光化学的,", 0, vec!["n".to_string()], score)
        .into_iter()
        .map(|(w, s)| (w, value(s)))
        .collect();
    assert_eq!(r, vec![("光化学".to_string(), 99.123456789 / 2.0), ("生化学".to_string(), 13.900677652 / 2.0)]);
    let none = t.extract_keywords(&jieba, "", 5, Vec::new(), score);
    assert_eq!(none, Vec::new());
}
