//! The segmentation engine, which this library only calls.
use vstd::prelude::*;
use jieba_rs::Jieba;
use crate::format::pair_views;

verus! {

#[verifier::external_type_specification]
#[verifier::external_body]
pub struct ExJieba(Jieba);

/// The tagged words into which an engine parts a sentence, from left to
/// right: each word with its part-of-speech tag. `hmm` says whether the
/// engine uses its hidden Markov model for what its dictionary does not hold.
pub uninterp spec fn tagged(jieba: Jieba, sentence: Seq<char>, hmm: bool) -> Seq<(Seq<char>, Seq<char>)>;

/// `Jieba::tag`, which reads the engine, the sentence and the flag, and
/// nothing else: the result is named, not described.
#[verifier::external_body]
pub(crate) fn tag_sentence(jieba: &Jieba, sentence: &str, hmm: bool) -> (tags: Vec<(String, String)>)
    ensures
        pair_views(tags@) == tagged(*jieba, sentence@, hmm),
{
    jieba.tag(sentence, hmm).into_iter().map(|t| (String::from(t.word), String::from(t.tag))).collect()
}

} // verus!
