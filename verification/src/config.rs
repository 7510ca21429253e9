//! What decides which words can be keywords.
use vstd::prelude::*;
use crate::text::{lowercase, to_lowercase};

verus! {

/// The characters of each string of a list.
pub open spec fn word_views(v: Seq<String>) -> Seq<Seq<char>> {
    v.map_values(|s: String| s@)
}

/// The stop words of a configuration that names none, in the order of words.
pub open spec fn default_stop_words() -> Seq<Seq<char>> {
    seq![
        "all"@,
        "an"@,
        "and"@,
        "are"@,
        "as"@,
        "at"@,
        "be"@,
        "by"@,
        "can"@,
        "for"@,
        "from"@,
        "has"@,
        "have"@,
        "if"@,
        "in"@,
        "is"@,
        "it"@,
        "not"@,
        "of"@,
        "on"@,
        "one"@,
        "or"@,
        "that"@,
        "the"@,
        "then"@,
        "this"@,
        "to"@,
        "we"@,
        "which"@,
        "with"@,
        "you"@,
    ]
}

/// `jieba_rs::DEFAULT_STOP_WORDS`, a set of 31 English words, walked in its
/// order, which is the order of words.
#[verifier::external_body]
fn builtin_stop_words() -> (r: Vec<String>)
    ensures
        word_views(r@) == default_stop_words(),
{
    jieba_rs::DEFAULT_STOP_WORDS.iter().cloned().collect()
}

/// Whether `word` is in `list`.
pub fn contains_word(list: &Vec<String>, word: &String) -> (r: bool)
    ensures
        r == word_views(list@).contains(word@),
{
    let mut i: usize = 0;
    while i < list.len()
        invariant
            i <= list.len(),
            forall|j: int| 0 <= j < i ==> word_views(list@)[j] != word@,
        decreases list.len() - i,
    {
        if list[i] == *word {
            assert(word_views(list@)[i as int] == word@);
            return true;
        }
        i += 1;
    }
    false
}

/// The options of keyword extraction.
#[derive(Debug)]
pub struct ExtractConfig {
    min_keyword_length: usize,
    stop_words: Vec<String>,
    use_hmm: bool,
}

impl ExtractConfig {
    /// The least number of characters of a keyword.
    pub closed spec fn min_len(&self) -> nat {
        self.min_keyword_length as nat
    }

    /// The stop words.
    pub closed spec fn stop_list(&self) -> Seq<Seq<char>> {
        word_views(self.stop_words@)
    }

    /// Whether the segmentation engine is asked to use its hidden Markov model.
    pub closed spec fn hmm(&self) -> bool {
        self.use_hmm
    }

    /// Whether a word can be a keyword: it has at least `min_len` characters,
    /// and its lower-case form is no stop word.
    pub open spec fn accepts_spec(&self, word: Seq<char>) -> bool {
        word.len() >= self.min_len() && !self.stop_list().contains(lowercase(word))
    }

    /// Whether a tagged word is counted: its tag is allowed, where any tags
    /// are named, and the word can be a keyword.
    pub open spec fn passes(&self, allowed: Seq<Seq<char>>, token: (Seq<char>, Seq<char>)) -> bool {
        (allowed.len() == 0 || allowed.contains(token.1)) && self.accepts_spec(token.0)
    }

    /// The words of the tagged words that are counted, in their order, each as
    /// often as it is counted.
    pub open spec fn kept_words(&self, allowed: Seq<Seq<char>>, tokens: Seq<(Seq<char>, Seq<char>)>) -> Seq<
        Seq<char>,
    >
        decreases tokens.len(),
    {
        if tokens.len() == 0 {
            Seq::empty()
        } else {
            let before = self.kept_words(allowed, tokens.drop_last());
            if self.passes(allowed, tokens.last()) {
                before.push(tokens.last().0)
            } else {
                before
            }
        }
    }

    /// A configuration with the given options.
    pub fn new(min_keyword_length: usize, stop_words: Vec<String>, use_hmm: bool) -> (r: Self)
        ensures
            r.min_len() == min_keyword_length,
            r.stop_list() == word_views(stop_words@),
            r.hmm() == use_hmm,
    {
        ExtractConfig { min_keyword_length, stop_words, use_hmm }
    }

    /// The least number of characters of a keyword.
    pub fn min_keyword_length(&self) -> (r: usize)
        ensures
            r == self.min_len(),
    {
        self.min_keyword_length
    }

    /// The stop words.
    pub fn stop_words(&self) -> (r: &Vec<String>)
        ensures
            word_views(r@) == self.stop_list(),
    {
        &self.stop_words
    }

    /// Whether the segmentation engine is asked to use its hidden Markov model.
    pub fn use_hmm(&self) -> (r: bool)
        ensures
            r == self.hmm(),
    {
        self.use_hmm
    }

    /// Whether a word can be a keyword.
    pub fn accepts(&self, word: &str) -> (r: bool)
        ensures
            r == self.accepts_spec(word@),
    {
        if word.unicode_len() < self.min_keyword_length {
            return false;
        }
        let lower = to_lowercase(word);
        !contains_word(&self.stop_words, &lower)
    }
}

impl Default for ExtractConfig {
    /// Keywords of at least two characters, the built-in stop words, and the
    /// hidden Markov model in use.
    fn default() -> (r: Self)
        ensures
            r.min_len() == 2,
            r.stop_list() == default_stop_words(),
            r.hmm(),
    {
        ExtractConfig { min_keyword_length: 2, stop_words: builtin_stop_words(), use_hmm: true }
    }
}

/// A word that is too short, or whose lower-case form is a stop word, is
/// no keyword, whatever its own casing; every other word is one.
pub proof fn lemma_accepts(config: ExtractConfig, word: Seq<char>)
    ensures
        word.len() < config.min_len() ==> !config.accepts_spec(word),
        config.stop_list().contains(lowercase(word)) ==> !config.accepts_spec(word),
        word.len() >= config.min_len() && !config.stop_list().contains(lowercase(word))
            ==> config.accepts_spec(word),
{
}

/// Every counted word is the word of a tagged word that can be a keyword and
/// whose tag is allowed; where no tag is named, every tag is allowed.
pub proof fn lemma_kept_word_passes(
    config: ExtractConfig,
    allowed: Seq<Seq<char>>,
    tokens: Seq<(Seq<char>, Seq<char>)>,
    word: Seq<char>,
)
    requires
        config.kept_words(allowed, tokens).contains(word),
    ensures
        exists|i: int|
            0 <= i < tokens.len() && (#[trigger] tokens[i]).0 == word && config.accepts_spec(word) && (
            allowed.len() == 0 || allowed.contains(tokens[i].1)),
    decreases tokens.len(),
{
    let kept = config.kept_words(allowed, tokens);
    let before = config.kept_words(allowed, tokens.drop_last());
    let last = tokens.len() - 1;
    if tokens.len() > 0 {
        if config.passes(allowed, tokens.last()) && tokens.last().0 == word {
            assert(tokens[last].0 == word);
        } else {
            let p = choose|p: int| 0 <= p < kept.len() && kept[p] == word;
            assert(before[p] == word);
            lemma_kept_word_passes(config, allowed, tokens.drop_last(), word);
            let i = choose|i: int|
                0 <= i < tokens.drop_last().len() && (#[trigger] tokens.drop_last()[i]).0 == word
                    && config.accepts_spec(word) && (allowed.len() == 0 || allowed.contains(
                    tokens.drop_last()[i].1,
                ));
            assert(tokens[i] == tokens.drop_last()[i]);
        }
    }
}

/// A tagged word that can be a keyword and whose tag is allowed is counted.
pub proof fn lemma_passing_token_kept(
    config: ExtractConfig,
    allowed: Seq<Seq<char>>,
    tokens: Seq<(Seq<char>, Seq<char>)>,
    i: int,
)
    requires
        0 <= i < tokens.len(),
        config.passes(allowed, tokens[i]),
    ensures
        config.kept_words(allowed, tokens).contains(tokens[i].0),
    decreases tokens.len(),
{
    let kept = config.kept_words(allowed, tokens);
    let before = config.kept_words(allowed, tokens.drop_last());
    if i == tokens.len() - 1 {
        assert(kept[kept.len() - 1] == tokens[i].0);
    } else {
        lemma_passing_token_kept(config, allowed, tokens.drop_last(), i);
        let p = choose|p: int| 0 <= p < before.len() && before[p] == tokens[i].0;
        assert(kept[p] == tokens[i].0);
    }
}

} // verus!
