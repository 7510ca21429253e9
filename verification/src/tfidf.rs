//! The dictionary of weights, and keyword extraction with it.
//!
//! A weight is an unsigned 64-bit code. The dictionary keeps the code that a
//! source gave to each word, and the median of the codes of the last load for
//! the words it does not know. Reading a code out of text, and the arithmetic
//! that makes a score of a count and a weight, are the caller's: they come in
//! as functions.
use vstd::prelude::*;
use ahash::AHashMap;
use jieba_rs::Jieba;
use crate::config::{contains_word, word_views, ExtractConfig};
use crate::engine::{tag_sentence, tagged};
use crate::format::{dict_entries, pair_views, split_entries};
use crate::rank::{
    best,
    best_len,
    lemma_best_distinct,
    lemma_best_from_terms,
    lemma_best_len,
    lemma_best_sorted,
    lower_median,
    median_of,
    precedes,
    select,
    term_views,
};
use crate::store::{lists_entries, table_entries, table_get, table_insert, table_new, table_pairs};

verus! {

/// Why a dictionary was not loaded.
#[derive(Debug, Clone, Copy, PartialEq, Eq)]
pub enum LoadError {
    /// The source held no entry with a weight.
    NoEntries,
}

/// The dictionary that a list of entries makes: for each word the weight of
/// its last entry.
pub open spec fn dict_of(entries: Seq<(Seq<char>, u64)>) -> Map<Seq<char>, u64>
    decreases entries.len(),
{
    if entries.len() == 0 {
        Map::empty()
    } else {
        dict_of(entries.drop_last()).insert(entries.last().0, entries.last().1)
    }
}

/// The weights of a list of entries, one for each entry.
pub open spec fn weights_of(entries: Seq<(Seq<char>, u64)>) -> Seq<u64> {
    entries.map_values(|e: (Seq<char>, u64)| e.1)
}

/// The weight of a word: the dictionary's, or the median for a word that the
/// dictionary does not hold.
pub open spec fn weight_of(dict: Map<Seq<char>, u64>, median: u64, word: Seq<char>) -> u64 {
    if dict.contains_key(word) {
        dict[word]
    } else {
        median
    }
}

/// How often `word` occurs in `words`.
pub open spec fn count_of(words: Seq<Seq<char>>, word: Seq<char>) -> nat
    decreases words.len(),
{
    if words.len() == 0 {
        0
    } else {
        count_of(words.drop_last(), word) + if words.last() == word {
            1nat
        } else {
            0nat
        }
    }
}

/// The term frequencies of a list of words: for each word that occurs, how often.
pub open spec fn term_counts(words: Seq<Seq<char>>) -> Map<Seq<char>, u64> {
    Map::new(|w: Seq<char>| count_of(words, w) > 0, |w: Seq<char>| count_of(words, w) as u64)
}

/// The entries that a source gives: of each line's two fields the word and
/// the weight that was read from the second, for the lines where one was read.
pub open spec fn valid_entries(fields: Seq<(Seq<char>, Seq<char>)>, weights: Seq<Option<u64>>) -> Seq<
    (Seq<char>, u64),
>
    decreases fields.len(),
{
    if fields.len() == 0 || weights.len() != fields.len() {
        Seq::empty()
    } else {
        let before = valid_entries(fields.drop_last(), weights.drop_last());
        match weights.last() {
            Some(w) => before.push((fields.last().0, w)),
            None => before,
        }
    }
}

/// `weights[i]` is what `parse` made of the second field of `fields[i]`.
pub open spec fn parses<P: Fn(&String) -> Option<u64>>(
    parse: P,
    fields: Seq<(String, String)>,
    weights: Seq<Option<u64>>,
) -> bool {
    &&& weights.len() == fields.len()
    &&& forall|i: int|
        0 <= i < fields.len() ==> call_ensures(parse, (&fields[i].1,), #[trigger] weights[i])
}

/// TF-IDF keyword extraction: a dictionary of weights, the median of its
/// last load, and the options.
pub struct TfIdf {
    idf_dict: AHashMap<String, u64>,
    median_idf: u64,
    config: ExtractConfig,
    loaded: Ghost<Seq<(Seq<char>, u64)>>,
}

/// What a load of `entries` does: without entries it fails and changes
/// nothing; else the entries replace the dictionary and their median the old one.
pub open spec fn load_result(pre: TfIdf, post: TfIdf, r: Result<(), LoadError>, entries: Seq<(Seq<char>, u64)>) -> bool {
    if entries.len() == 0 {
        r == Err::<(), LoadError>(LoadError::NoEntries) && post == pre
    } else {
        r is Ok && post.loaded() == entries && post.wf() && post.options() == pre.options()
    }
}

impl TfIdf {
    /// The weight of each word of the dictionary.
    pub closed spec fn dict(&self) -> Map<Seq<char>, u64> {
        table_entries(self.idf_dict)
    }

    /// The weight of the words that the dictionary does not hold.
    pub closed spec fn median(&self) -> u64 {
        self.median_idf
    }

    /// The options.
    pub closed spec fn options(&self) -> ExtractConfig {
        self.config
    }

    /// The entries of the last load, in their order.
    pub closed spec fn loaded(&self) -> Seq<(Seq<char>, u64)> {
        self.loaded@
    }

    /// The dictionary is that of a load with at least one entry, and the
    /// median is the median of that load's weights.
    pub open spec fn wf(&self) -> bool {
        &&& self.loaded().len() > 0
        &&& self.dict() == dict_of(self.loaded())
        &&& self.median() == lower_median(weights_of(self.loaded()))
    }

    /// The weight that scoring gives to a word.
    pub open spec fn weight_spec(&self, word: Seq<char>) -> u64 {
        weight_of(self.dict(), self.median(), word)
    }

    /// `scored` holds each counted word once, with a score that `score` made
    /// of the word's count, its weight and the number of counted words.
    pub open spec fn scores<S: Fn(u64, u64, u64) -> u64>(
        &self,
        kept: Seq<Seq<char>>,
        score: S,
        scored: Seq<(Seq<char>, u64)>,
    ) -> bool {
        let counts = term_counts(kept);
        &&& forall|i: int|
            0 <= i < scored.len() ==> counts.contains_key((#[trigger] scored[i]).0) && call_ensures(
                score,
                (counts[scored[i].0], self.weight_spec(scored[i].0), kept.len() as u64),
                scored[i].1,
            )
        &&& forall|i: int, j: int|
            0 <= i < j < scored.len() ==> (#[trigger] scored[i]).0 != (#[trigger] scored[j]).0
        &&& forall|w: Seq<char>|
            counts.contains_key(w) ==> exists|i: int|
                0 <= i < scored.len() && (#[trigger] scored[i]).0 == w
    }

    /// `result` is an extraction from the tagged words `tokens`: the best `k`
    /// of the counted words under scores that `score` gave them.
    pub open spec fn extracts<S: Fn(u64, u64, u64) -> u64>(
        &self,
        tokens: Seq<(Seq<char>, Seq<char>)>,
        allowed: Seq<Seq<char>>,
        k: nat,
        score: S,
        result: Seq<(Seq<char>, u64)>,
    ) -> bool {
        exists|scored: Seq<(Seq<char>, u64)>| #[trigger]
            self.scores(self.options().kept_words(allowed, tokens), score, scored) && result
                == best(scored, k)
    }

    /// Loads a list of entries: they replace the dictionary, and the median
    /// of their weights replaces the median. A list without entries is
    /// refused, and nothing changes.
    pub fn load_entries(&mut self, entries: &Vec<(String, u64)>) -> (r: Result<(), LoadError>)
        ensures
            load_result(*old(self), *final(self), r, term_views(entries@)),
    {
        if entries.len() == 0 {
            return Err(LoadError::NoEntries);
        }
        let ghost all = term_views(entries@);
        let mut table = table_new();
        let mut values: Vec<u64> = Vec::new();
        let mut i: usize = 0;
        while i < entries.len()
            invariant
                i <= entries.len(),
                all == term_views(entries@),
                table_entries(table) == dict_of(all.take(i as int)),
                values@ == weights_of(all.take(i as int)),
            decreases entries.len() - i,
        {
            let word = entries[i].0.clone();
            table_insert(&mut table, word, entries[i].1);
            values.push(entries[i].1);
            proof {
                assert(all.take(i + 1).drop_last() =~= all.take(i as int));
                assert(weights_of(all.take(i + 1)) =~= weights_of(all.take(i as int)).push(
                    entries[i as int].1,
                ));
            }
            i += 1;
        }
        assert(all.take(entries.len() as int) =~= all);
        let median = median_of(&values);
        self.idf_dict = table;
        self.median_idf = median;
        self.loaded = Ghost(all);
        Ok(())
    }

    /// Loads a dictionary text. Each line with two fields gives a word and,
    /// where `parse` reads a weight out of the second field, an entry; the
    /// entries are then loaded as by `load_entries`.
    pub fn load_dict<P: Fn(&String) -> Option<u64>>(&mut self, dict: &str, parse: P) -> (r: Result<
        (),
        LoadError,
    >)
        requires
            forall|field: &String| call_requires(parse, (field,)),
        ensures
            exists|fields: Seq<(String, String)>, weights: Seq<Option<u64>>|
                pair_views(fields) == dict_entries(dict@) && #[trigger] parses(parse, fields, weights)
                    && load_result(
                    *old(self),
                    *final(self),
                    r,
                    valid_entries(pair_views(fields), weights),
                ),
    {
        let fields = split_entries(dict);
        let ghost views = pair_views(fields@);
        let mut entries: Vec<(String, u64)> = Vec::new();
        let ghost mut weights: Seq<Option<u64>> = Seq::empty();
        let mut i: usize = 0;
        while i < fields.len()
            invariant
                i <= fields.len(),
                views == pair_views(fields@),
                forall|field: &String| call_requires(parse, (field,)),
                parses(parse, fields@.take(i as int), weights),
                term_views(entries@) == valid_entries(views.take(i as int), weights),
            decreases fields.len() - i,
        {
            let weight = parse(&fields[i].1);
            let ghost before = term_views(entries@);
            match weight {
                Some(w) => {
                    let word = fields[i].0.clone();
                    entries.push((word, w));
                    assert(term_views(entries@) =~= before.push((fields[i as int].0@, w)));
                },
                None => {},
            }
            proof {
                let old_weights = weights;
                weights = weights.push(weight);
                assert(weights.drop_last() =~= old_weights);
                assert(views.take(i + 1).drop_last() =~= views.take(i as int));
                assert(fields@.take(i + 1) =~= fields@.take(i as int).push(fields[i as int]));
            }
            i += 1;
        }
        proof {
            assert(views.take(fields.len() as int) =~= views);
            assert(fields@.take(fields.len() as int) =~= fields@);
        }
        self.load_entries(&entries)
    }

    /// The extraction with the entries loaded, or the reason why there is none.
    pub fn from_entries(entries: &Vec<(String, u64)>, config: ExtractConfig) -> (r: Result<TfIdf, LoadError>)
        ensures
            entries.len() == 0 ==> r == Err::<TfIdf, LoadError>(LoadError::NoEntries),
            entries.len() > 0 ==> r is Ok && r->Ok_0.wf() && r->Ok_0.loaded() == term_views(entries@)
                && r->Ok_0.options() == config,
    {
        let mut instance = TfIdf {
            idf_dict: table_new(),
            median_idf: 0,
            config,
            loaded: Ghost(Seq::empty()),
        };
        match instance.load_entries(entries) {
            Ok(()) => Ok(instance),
            Err(e) => Err(e),
        }
    }

    /// The extraction with a dictionary text loaded as by `load_dict`, or the
    /// reason why there is none.
    pub fn new<P: Fn(&String) -> Option<u64>>(dict: &str, config: ExtractConfig, parse: P) -> (r: Result<
        TfIdf,
        LoadError,
    >)
        requires
            forall|field: &String| call_requires(parse, (field,)),
        ensures
            exists|fields: Seq<(String, String)>, weights: Seq<Option<u64>>|
                pair_views(fields) == dict_entries(dict@) && #[trigger] parses(parse, fields, weights) && {
                    let entries = valid_entries(pair_views(fields), weights);
                    if entries.len() == 0 {
                        r == Err::<TfIdf, LoadError>(LoadError::NoEntries)
                    } else {
                        r is Ok && r->Ok_0.wf() && r->Ok_0.loaded() == entries && r->Ok_0.options()
                            == config
                    }
                },
    {
        let mut instance = TfIdf {
            idf_dict: table_new(),
            median_idf: 0,
            config,
            loaded: Ghost(Seq::empty()),
        };
        match instance.load_dict(dict, parse) {
            Ok(()) => Ok(instance),
            Err(e) => Err(e),
        }
    }

    /// The weight that the dictionary holds for a word, if it holds the word.
    pub fn lookup(&self, word: &str) -> (r: Option<u64>)
        ensures
            r == (if self.dict().contains_key(word@) {
                Some(self.dict()[word@])
            } else {
                None
            }),
    {
        table_get(&self.idf_dict, word)
    }

    /// The weight of the words that the dictionary does not hold.
    pub fn median_idf(&self) -> (r: u64)
        ensures
            r == self.median(),
    {
        self.median_idf
    }

    /// The options.
    pub fn config(&self) -> (r: &ExtractConfig)
        ensures
            *r == self.options(),
    {
        &self.config
    }

    /// The weight that scoring gives to a word: the dictionary's, or the
    /// median for a word that the dictionary does not hold.
    pub fn weight(&self, word: &str) -> (r: u64)
        ensures
            r == self.weight_spec(word@),
    {
        match table_get(&self.idf_dict, word) {
            Some(w) => w,
            None => self.median_idf,
        }
    }

    /// Whether a word can be a keyword.
    pub fn filter_word(&self, s: &str) -> (r: bool)
        ensures
            r == self.options().accepts_spec(s@),
    {
        self.config.accepts(s)
    }

    /// Counts the words of the tagged words that can be keywords and whose tag
    /// is allowed; with no tag named, every tag is allowed. Gives each counted
    /// word once with its count, in no fixed order, and the number of
    /// counted words.
    pub fn aggregate(&self, tokens: &Vec<(String, String)>, allowed_pos: &Vec<String>) -> (r: (
        Vec<(String, u64)>,
        u64,
    ))
        ensures
            lists_entries(
                r.0@,
                term_counts(self.options().kept_words(word_views(allowed_pos@), pair_views(tokens@))),
            ),
            r.1 == self.options().kept_words(word_views(allowed_pos@), pair_views(tokens@)).len(),
    {
        let ghost allowed = word_views(allowed_pos@);
        let ghost all = pair_views(tokens@);
        let mut table = table_new();
        let mut total: u64 = 0;
        let mut i: usize = 0;
        proof {
            assert(table_entries(table) =~= term_counts(self.options().kept_words(allowed, all.take(0))));
        }
        while i < tokens.len()
            invariant
                i <= tokens.len(),
                allowed == word_views(allowed_pos@),
                all == pair_views(tokens@),
                table_entries(table) == term_counts(self.options().kept_words(allowed, all.take(i as int))),
                total == self.options().kept_words(allowed, all.take(i as int)).len(),
                total <= i,
            decreases tokens.len() - i,
        {
            let ghost kept = self.options().kept_words(allowed, all.take(i as int));
            proof {
                assert(all.take(i + 1).drop_last() =~= all.take(i as int));
            }
            let tag_allowed = allowed_pos.len() == 0 || contains_word(allowed_pos, &tokens[i].1);
            if tag_allowed && self.config.accepts(tokens[i].0.as_str()) {
                let ghost w = tokens[i as int].0@;
                let count = match table_get(&table, tokens[i].0.as_str()) {
                    Some(c) => c,
                    None => 0,
                };
                proof {
                    lemma_count_of_bound(kept, w);
                    lemma_count_of_push(kept, w);
                }
                let word = tokens[i].0.clone();
                table_insert(&mut table, word, count + 1);
                total += 1;
                assert(table_entries(table) =~= term_counts(kept.push(w)));
            }
            i += 1;
        }
        assert(all.take(tokens.len() as int) =~= all);
        (table_pairs(&table), total)
    }

    /// Extracts keywords from tagged words: counts the words that can be
    /// keywords and whose tag is allowed, has `score` make a score of each
    /// word's count, its weight and the number of counted words, and gives
    /// the best `top_k` in ranking order, or all of them with `top_k` 0.
    pub fn extract_from_tags<S: Fn(u64, u64, u64) -> u64>(
        &self,
        tokens: &Vec<(String, String)>,
        top_k: usize,
        allowed_pos: &Vec<String>,
        score: S,
    ) -> (r: Vec<(String, u64)>)
        requires
            forall|count: u64, weight: u64, total: u64|
                0 < count <= total ==> call_requires(score, (count, weight, total)),
        ensures
            self.extracts(
                pair_views(tokens@),
                word_views(allowed_pos@),
                top_k as nat,
                score,
                term_views(r@),
            ),
    {
        let ghost kept = self.options().kept_words(word_views(allowed_pos@), pair_views(tokens@));
        let ghost counts_map = term_counts(kept);
        let (counts, total) = self.aggregate(tokens, allowed_pos);
        let mut scored: Vec<(String, u64)> = Vec::new();
        let mut i: usize = 0;
        while i < counts.len()
            invariant
                i <= counts.len(),
                scored.len() == i,
                lists_entries(counts@, counts_map),
                counts_map == term_counts(kept),
                total == kept.len(),
                forall|count: u64, weight: u64, total: u64|
                    0 < count <= total ==> call_requires(score, (count, weight, total)),
                forall|j: int|
                    0 <= j < i ==> (#[trigger] term_views(scored@)[j]).0 == counts[j].0@ && call_ensures(
                        score,
                        (counts[j].1, self.weight_spec(counts[j].0@), total),
                        term_views(scored@)[j].1,
                    ),
            decreases counts.len() - i,
        {
            let weight = self.weight(counts[i].0.as_str());
            proof {
                assert(counts_map.contains_key(counts[i as int].0@));
                lemma_count_of_bound(kept, counts[i as int].0@);
            }
            let s = score(counts[i].1, weight, total);
            let word = counts[i].0.clone();
            let ghost before = term_views(scored@);
            scored.push((word, s));
            assert(term_views(scored@) =~= before.push((counts[i as int].0@, s)));
            i += 1;
        }
        proof {
            let sv = term_views(scored@);
            assert forall|w: Seq<char>| counts_map.contains_key(w) implies exists|i: int|
                0 <= i < sv.len() && (#[trigger] sv[i]).0 == w by {
                let j = choose|j: int| 0 <= j < counts@.len() && #[trigger] counts@[j].0@ == w;
                assert(sv[j].0 == w);
            }
            assert forall|i: int, j: int| 0 <= i < j < sv.len() implies (#[trigger] sv[i]).0 != (
            #[trigger] sv[j]).0 by {
                assert(counts@[i].0@ != counts@[j].0@);
            }
            assert forall|i: int| 0 <= i < sv.len() implies counts_map.contains_key(
                (#[trigger] sv[i]).0,
            ) && call_ensures(
                score,
                (counts_map[sv[i].0], self.weight_spec(sv[i].0), kept.len() as u64),
                sv[i].1,
            ) by {
                assert(counts_map.contains_key(counts@[i].0@));
            }
            assert(self.scores(kept, score, sv));
        }
        select(&scored, top_k)
    }

    /// Extracts keywords from a sentence: has the engine part it into tagged
    /// words, with the hidden Markov model as the options say, and extracts
    /// from those as `extract_from_tags` does.
    pub fn extract_keywords<S: Fn(u64, u64, u64) -> u64>(
        &self,
        jieba: &Jieba,
        sentence: &str,
        top_k: usize,
        allowed_pos: Vec<String>,
        score: S,
    ) -> (r: Vec<(String, u64)>)
        requires
            forall|count: u64, weight: u64, total: u64|
                0 < count <= total ==> call_requires(score, (count, weight, total)),
        ensures
            self.extracts(
                tagged(*jieba, sentence@, self.options().hmm()),
                word_views(allowed_pos@),
                top_k as nat,
                score,
                term_views(r@),
            ),
    {
        let tags = tag_sentence(jieba, sentence, self.config.use_hmm());
        self.extract_from_tags(&tags, top_k, &allowed_pos, score)
    }
}

/// A word occurs in a list exactly if it is counted at least once.
pub proof fn lemma_count_of_contains(words: Seq<Seq<char>>, word: Seq<char>)
    ensures
        count_of(words, word) > 0 <==> words.contains(word),
    decreases words.len(),
{
    if words.len() > 0 {
        let rest = words.drop_last();
        lemma_count_of_contains(rest, word);
        if words.last() == word {
            assert(words[words.len() - 1] == word);
        }
        if rest.contains(word) {
            let p = choose|p: int| 0 <= p < rest.len() && rest[p] == word;
            assert(words[p] == word);
        }
        if words.contains(word) && words.last() != word {
            let p = choose|p: int| 0 <= p < words.len() && words[p] == word;
            assert(rest[p] == word);
        }
    }
}

/// The dictionary of a list of entries holds exactly the words of the entries.
pub proof fn lemma_dict_of_words(entries: Seq<(Seq<char>, u64)>, word: Seq<char>)
    ensures
        dict_of(entries).contains_key(word) <==> exists|i: int|
            0 <= i < entries.len() && (#[trigger] entries[i]).0 == word,
    decreases entries.len(),
{
    if entries.len() > 0 {
        let rest = entries.drop_last();
        lemma_dict_of_words(rest, word);
        if dict_of(entries).contains_key(word) {
            if entries.last().0 == word {
                assert(entries[entries.len() - 1].0 == word);
            } else {
                let i = choose|i: int| 0 <= i < rest.len() && (#[trigger] rest[i]).0 == word;
                assert(entries[i].0 == word);
            }
        }
        if exists|i: int| 0 <= i < entries.len() && (#[trigger] entries[i]).0 == word {
            let i = choose|i: int| 0 <= i < entries.len() && (#[trigger] entries[i]).0 == word;
            if i < entries.len() - 1 {
                assert(rest[i].0 == word);
            }
        }
    }
}

/// A word that has an entry has in the dictionary the weight of its last
/// entry.
pub proof fn lemma_dict_of_last(entries: Seq<(Seq<char>, u64)>, i: int)
    requires
        0 <= i < entries.len(),
        forall|j: int| i < j < entries.len() ==> (#[trigger] entries[j]).0 != entries[i].0,
    ensures
        dict_of(entries).contains_key(entries[i].0),
        dict_of(entries)[entries[i].0] == entries[i].1,
    decreases entries.len(),
{
    if i < entries.len() - 1 {
        let rest = entries.drop_last();
        assert(entries[entries.len() - 1].0 != entries[i].0);
        assert forall|j: int| i < j < rest.len() implies (#[trigger] rest[j]).0 != rest[i].0 by {
            assert(entries[j].0 != entries[i].0);
        }
        lemma_dict_of_last(rest, i);
    }
}

/// A word that the dictionary holds is looked up with its stored weight and
/// scored with it; any other word is scored with the median.
pub proof fn lemma_weight_of_word(t: TfIdf, word: Seq<char>)
    ensures
        t.dict().contains_key(word) ==> t.weight_spec(word) == t.dict()[word],
        !t.dict().contains_key(word) ==> t.weight_spec(word) == t.median(),
{
}

/// Two loads of the same entries give the same dictionary, the same median,
/// and so the same weight to every word.
pub proof fn lemma_same_load(a: TfIdf, b: TfIdf)
    requires
        a.wf(),
        b.wf(),
        a.loaded() == b.loaded(),
    ensures
        a.dict() == b.dict(),
        a.median() == b.median(),
        forall|word: Seq<char>| a.weight_spec(word) == b.weight_spec(word),
{
}

/// What every extraction holds. Its terms stand in ranking order. They are
/// as many as the counted words are distinct, or `k` where `k` is not 0 and
/// less than that. Each of its words is a counted word: the word of a tagged
/// word that can be a keyword and whose tag is allowed.
pub proof fn lemma_extraction<S: Fn(u64, u64, u64) -> u64>(
    t: TfIdf,
    tokens: Seq<(Seq<char>, Seq<char>)>,
    allowed: Seq<Seq<char>>,
    k: nat,
    score: S,
    result: Seq<(Seq<char>, u64)>,
)
    requires
        t.extracts(tokens, allowed, k, score, result),
    ensures
        forall|i: int, j: int|
            0 <= i < j < result.len() ==> precedes(#[trigger] result[i], #[trigger] result[j]),
        result.len() == best_len(t.options().kept_words(allowed, tokens).to_set().len(), k),
        k > 0 ==> result.len() <= k,
        forall|i: int|
            0 <= i < result.len() ==> t.options().kept_words(allowed, tokens).contains(
                (#[trigger] result[i]).0,
            ),
        forall|i: int, j: int|
            0 <= i < j < result.len() ==> (#[trigger] result[i]).0 != (#[trigger] result[j]).0,
{
    let kept = t.options().kept_words(allowed, tokens);
    let counts = term_counts(kept);
    let scored = choose|scored: Seq<(Seq<char>, u64)>| #[trigger]
        t.scores(kept, score, scored) && result == best(scored, k);
    let words = scored.map_values(|s: (Seq<char>, u64)| s.0);
    lemma_best_sorted(scored, k);
    lemma_best_len(scored, k);
    assert(words.no_duplicates()) by {
        assert forall|i: int, j: int| 0 <= i < words.len() && 0 <= j < words.len() && i != j implies words[i]
            != words[j] by {
            if i < j {
                assert(scored[i].0 != scored[j].0);
            } else {
                assert(scored[j].0 != scored[i].0);
            }
        }
    }
    assert(words.to_set() =~= kept.to_set()) by {
        assert forall|w: Seq<char>| words.contains(w) <==> kept.contains(w) by {
            lemma_count_of_contains(kept, w);
            if words.contains(w) {
                let i = choose|i: int| 0 <= i < words.len() && words[i] == w;
                assert(counts.contains_key(scored[i].0));
            }
            if kept.contains(w) {
                assert(counts.contains_key(w));
                let i = choose|i: int| 0 <= i < scored.len() && (#[trigger] scored[i]).0 == w;
                assert(words[i] == w);
            }
        }
    }
    words.unique_seq_to_set();
    assert forall|i: int| 0 <= i < result.len() implies kept.contains((#[trigger] result[i]).0) by {
        lemma_best_from_terms(scored, k, i);
        let p = choose|p: int| 0 <= p < scored.len() && scored[p] == result[i];
        assert(counts.contains_key(scored[p].0));
        lemma_count_of_contains(kept, result[i].0);
    }
    assert forall|i: int, j: int| 0 <= i < j < result.len() implies (#[trigger] result[i]).0 != (
    #[trigger] result[j]).0 by {
        lemma_best_distinct(scored, k, i, j);
    }
}

/// Where no tagged word is counted, and so where there is none, the
/// extraction is empty.
pub proof fn lemma_extraction_of_nothing<S: Fn(u64, u64, u64) -> u64>(
    t: TfIdf,
    tokens: Seq<(Seq<char>, Seq<char>)>,
    allowed: Seq<Seq<char>>,
    k: nat,
    score: S,
    result: Seq<(Seq<char>, u64)>,
)
    requires
        t.extracts(tokens, allowed, k, score, result),
        tokens.len() == 0 || t.options().kept_words(allowed, tokens).len() == 0,
    ensures
        result.len() == 0,
{
    let kept = t.options().kept_words(allowed, tokens);
    lemma_extraction(t, tokens, allowed, k, score, result);
    assert(kept.to_set() =~= Set::<Seq<char>>::empty());
}

/// A word occurs in a list no more often than the list is long.
pub proof fn lemma_count_of_bound(words: Seq<Seq<char>>, word: Seq<char>)
    ensures
        count_of(words, word) <= words.len(),
    decreases words.len(),
{
    if words.len() > 0 {
        lemma_count_of_bound(words.drop_last(), word);
    }
}

/// One more word at the end counts once more for that word, and leaves the
/// counts of the others.
pub proof fn lemma_count_of_push(words: Seq<Seq<char>>, word: Seq<char>)
    ensures
        forall|w: Seq<char>| #[trigger]
            count_of(words.push(word), w) == count_of(words, w) + if w == word {
                1nat
            } else {
                0nat
            },
{
    assert(words.push(word).drop_last() =~= words);
}

} // verus!
